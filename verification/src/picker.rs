//! Menus offered to the user, and reading back which entry was picked.

use vstd::prelude::*;

use crate::paths::texts;
use crate::text::{chars_of, str_eq, string_of, trim_end_by, trim_end_chars_by, CharClass};

verus! {

/// Options for one interactive pick: the prompt shown in front of the query.
pub struct PickOpts<'a> {
    pub prompt: &'a str,
}

/// Entries offered for picking: a label for each, and the value a pick of that
/// label stands for.
#[derive(Debug, Clone)]
pub struct Menu {
    pub labels: Vec<String>,
    pub values: Vec<u32>,
}

/// The value of the first of the paired `labels` and `values` whose label is `picked`.
pub open spec fn menu_value(labels: Seq<Seq<char>>, values: Seq<u32>, picked: Seq<char>) -> Option<
    u32,
>
    decreases labels.len(),
{
    if labels.len() == 0 || values.len() == 0 {
        None
    } else if labels[0] == picked {
        Some(values[0])
    } else {
        menu_value(labels.drop_first(), values.drop_first(), picked)
    }
}

impl Menu {
    /// The value that picking the line `picked` stands for: that of the first entry
    /// labelled `picked`, or `None` when no entry is.
    pub fn value_of(&self, picked: &str) -> (r: Option<u32>)
        ensures
            r == menu_value(texts(self.labels@), self.values@, picked@),
    {
        let ghost ls = texts(self.labels@);
        let ghost vs = self.values@;
        let mut i: usize = 0;
        assert(ls.skip(0) == ls && vs.skip(0) == vs);
        while i < self.labels.len() && i < self.values.len()
            invariant
                i <= self.labels@.len(),
                i <= self.values@.len(),
                ls == texts(self.labels@),
                vs == self.values@,
                menu_value(ls, vs, picked@) == menu_value(ls.skip(i as int), vs.skip(i as int), picked@),
            decreases self.labels.len() - i,
        {
            assert(ls.skip(i as int)[0] == self.labels@[i as int]@);
            assert(vs.skip(i as int)[0] == self.values@[i as int]);
            if str_eq(self.labels[i].as_str(), picked) {
                return Some(self.values[i]);
            }
            assert(ls.skip(i as int).drop_first() == ls.skip(i + 1));
            assert(vs.skip(i as int).drop_first() == vs.skip(i + 1));
            i += 1;
        }
        None
    }
}

/// Looking a label up finds the value of the first entry that carries that label.
pub proof fn lemma_menu_value_first(labels: Seq<Seq<char>>, values: Seq<u32>, i: int)
    requires
        labels.len() == values.len(),
        0 <= i < labels.len(),
    ensures
        exists|j: int|
            0 <= j <= i && labels[j] == labels[i] && menu_value(labels, values, labels[i]) == Some(
                values[j],
            ),
    decreases i,
{
    if labels[0] == labels[i] {
        assert(menu_value(labels, values, labels[i]) == Some(values[0]));
    } else {
        lemma_menu_value_first(labels.drop_first(), values.drop_first(), i - 1);
        let j = choose|j: int|
            0 <= j <= i - 1 && labels.drop_first()[j] == labels.drop_first()[i - 1] && menu_value(
                labels.drop_first(),
                values.drop_first(),
                labels.drop_first()[i - 1],
            ) == Some(values.drop_first()[j]);
        assert(labels[j + 1] == labels[i] && values[j + 1] == values.drop_first()[j]);
    }
}

/// How a run of the fzf picker ended, by its exit status.
#[derive(Clone, Copy, Debug, PartialEq, Eq, Structural)]
pub enum PickerExit {
    /// A line was picked; it is on standard output.
    Selected,
    /// Nothing matched, or the user pressed Esc or Ctrl-C.
    Cancelled,
    /// fzf failed with this exit code.
    Failed(i32),
    /// fzf was ended by a signal.
    Killed,
}

/// Reads fzf's exit code: 0 is a pick, 1 (no match) and 130 (Esc or Ctrl-C) are a
/// cancel, any other code is a failure, and none at all means it was killed.
pub fn picker_exit(code: Option<i32>) -> (r: PickerExit)
    ensures
        r == match code {
            Some(c) => if c == 0 {
                PickerExit::Selected
            } else if c == 1 || c == 130 {
                PickerExit::Cancelled
            } else {
                PickerExit::Failed(c)
            },
            None => PickerExit::Killed,
        },
{
    match code {
        Some(0) => PickerExit::Selected,
        Some(1) | Some(130) => PickerExit::Cancelled,
        Some(c) => PickerExit::Failed(c),
        None => PickerExit::Killed,
    }
}

/// The picked line in fzf's output: the output without its trailing newlines.
pub fn selected_line(output: &str) -> (r: String)
    ensures
        r@ == trim_end_by(output@, CharClass::Newline),
{
    let v = chars_of(output);
    string_of(trim_end_chars_by(v.as_slice(), CharClass::Newline).as_slice())
}

/// The outcome of a pick that may need asking: decided already, or a menu to offer.
#[derive(Debug, Clone)]
pub enum Pick {
    Chosen(u32),
    Ask(Menu),
}

} // verus!
