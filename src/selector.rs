//! Which entry of a palette or a tool list is selected. Where the entries
//! are drawn and which one the pointer hits is the window's business.
use vstd::prelude::*;

use crate::color::Color;

verus! {

/// The first position of `c` in `colors`, if any.
pub open spec fn first_index_of(colors: Seq<Color>, c: Color) -> Option<int> {
    if exists|i: int| 0 <= i < colors.len() && colors[i] == c {
        Some(
            choose|i: int|
                0 <= i < colors.len() && colors[i] == c && forall|j: int|
                    0 <= j < i ==> colors[j] != c,
        )
    } else {
        None
    }
}

/// A palette of colors with one of them selected, the first to begin with.
pub struct ColorSelector {
    colors: Vec<Color>,
    selected_color_idx: usize,
}

impl ColorSelector {
    pub closed spec fn colors(&self) -> Seq<Color> {
        self.colors@
    }

    pub closed spec fn selected(&self) -> int {
        self.selected_color_idx as int
    }

    pub fn new(colors: Vec<Color>) -> (s: ColorSelector)
        ensures
            s.colors() == colors@,
            s.selected() == 0,
    {
        ColorSelector { colors, selected_color_idx: 0 }
    }

    /// Selects the first entry equal to `color`; without one, keeps the
    /// selection.
    pub fn set_selected_color(&mut self, color: Color)
        ensures
            final(self).colors() == old(self).colors(),
            final(self).selected() == match first_index_of(old(self).colors(), color) {
                Some(i) => i,
                None => old(self).selected(),
            },
    {
        let n = self.colors.len();
        let mut i: usize = 0;
        while i < n
            invariant
                i <= n,
                n == self.colors@.len(),
                self.colors@ == old(self).colors@,
                self.selected_color_idx == old(self).selected_color_idx,
                forall|j: int| 0 <= j < i ==> self.colors@[j] != color,
            decreases n - i,
        {
            if self.colors[i] == color {
                proof {
                    let f = first_index_of(self.colors@, color);
                    assert(0 <= i < self.colors@.len() && self.colors@[i as int] == color);
                    let k = f->0;
                    assert(0 <= k < self.colors@.len() && self.colors@[k] == color && forall|j: int|
                        0 <= j < k ==> self.colors@[j] != color);
                    assert(k == i);
                }
                self.selected_color_idx = i;
                return;
            }
            i += 1;
        }
    }

    /// Selects entry `i` when there is one.
    pub fn select(&mut self, i: usize)
        ensures
            final(self).colors() == old(self).colors(),
            final(self).selected() == if i < old(self).colors().len() {
                i as int
            } else {
                old(self).selected()
            },
    {
        if i < self.colors.len() {
            self.selected_color_idx = i;
        }
    }

    /// The selected color, or `None` for an empty palette.
    pub fn selected_color(&self) -> (c: Option<Color>)
        ensures
            c == if 0 <= self.selected() < self.colors().len() {
                Some(self.colors()[self.selected()])
            } else {
                None::<Color>
            },
    {
        if self.selected_color_idx < self.colors.len() {
            Some(self.colors[self.selected_color_idx])
        } else {
            None
        }
    }
}

/// A list of tool names with one of them selected, the first to begin with.
pub struct ToolSelector {
    labels: Vec<String>,
    selected_tool_idx: usize,
}

impl ToolSelector {
    pub closed spec fn labels(&self) -> Seq<Seq<char>> {
        self.labels@.map_values(|s: String| s@)
    }

    pub closed spec fn selected(&self) -> int {
        self.selected_tool_idx as int
    }

    pub fn new(labels: Vec<String>) -> (s: ToolSelector)
        ensures
            s.labels() == labels@.map_values(|l: String| l@),
            s.selected() == 0,
    {
        ToolSelector { labels, selected_tool_idx: 0 }
    }

    /// Selects entry `i` when there is one.
    pub fn select(&mut self, i: usize)
        ensures
            final(self).labels() == old(self).labels(),
            final(self).selected() == if i < old(self).labels().len() {
                i as int
            } else {
                old(self).selected()
            },
    {
        if i < self.labels.len() {
            self.selected_tool_idx = i;
        }
    }

    /// The name of the selected tool, or `None` for an empty list.
    pub fn selected_label(&self) -> (r: Option<String>)
        ensures
            r is Some <==> 0 <= self.selected() < self.labels().len(),
            r is Some ==> r->Some_0@ == self.labels()[self.selected()],
    {
        if self.selected_tool_idx < self.labels.len() {
            Some(self.labels[self.selected_tool_idx].clone())
        } else {
            None
        }
    }
}

} // verus!
