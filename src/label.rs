//! Widget labels: a label may carry a hidden identifier after `##`.
use vstd::prelude::*;
use vstd::string::StringSliceAdditionalSpecFns;

verus! {

/// A `"##"` starts at byte `i` of `b`.
pub open spec fn double_hash_at(b: Seq<u8>, i: int) -> bool {
    0 <= i && i + 1 < b.len() && b[i] == 35 && b[i + 1] == 35
}

/// Where the shown part of a label ends: at the start of its last `"##"`, or
/// at its end when it holds none.
pub open spec fn label_end(b: Seq<u8>) -> int {
    if exists|i: int| double_hash_at(b, i) {
        choose|i: int| double_hash_at(b, i) && forall|j: int| double_hash_at(b, j) ==> j <= i
    } else {
        b.len() as int
    }
}

/// The text a label shows: everything before its last `"##"`, or all of it.
pub fn get_display_text(text: &str) -> (r: &str)
    ensures
        r.spec_bytes() == text.spec_bytes().subrange(0, label_end(text.spec_bytes())),
{
    let bytes = text.as_bytes();
    let n = bytes.len();
    let ghost b = text.spec_bytes();
    assert(bytes@ == b);
    let mut i: usize = n;
    while i >= 2
        invariant
            n == b.len(),
            b == text.spec_bytes(),
            bytes@ == b,
            i <= n,
            forall|j: int| i <= j + 1 && j + 1 < n ==> !double_hash_at(b, j),
        decreases i,
    {
        if bytes[i - 2] == 35 && bytes[i - 1] == 35 {
            let cut = i - 2;
            proof {
                assert(double_hash_at(b, cut as int));
                let m = label_end(b);
                assert(forall|j: int| double_hash_at(b, j) ==> j <= cut);
                assert(double_hash_at(b, m) && forall|j: int| double_hash_at(b, j) ==> j <= m);
                assert(m == cut);
                vstd::utf8::encode_utf8_valid_utf8(text.view());
                assert(text.spec_bytes() == vstd::utf8::encode_utf8(text.view()));
                vstd::utf8::is_char_boundary_iff_not_is_continuation_byte(b, cut as int);
            }
            let (shown, _) = text.split_at(cut);
            return shown;
        }
        i -= 1;
    }
    proof {
        assert forall|j: int| !double_hash_at(b, j) by {
            if 0 <= j && j + 1 < n {
                assert(i <= j + 1);
            }
        }
        assert(b.subrange(0, n as int) =~= b);
    }
    text
}

} // verus!
