//! Option settings and the sort policy, together with the mathematical model
//! of applying single-character option flags.

use vstd::prelude::*;

verus! {

/// The ways directory entries can be ordered before display.
///
/// `CreationTime` is declared but deliberately performs no reordering when it
/// is the active kind: the listing then keeps the entries in the order they
/// were handed in.
#[derive(Clone, Copy, PartialEq, Eq, Structural, Debug)]
pub enum SortType {
    Alphabetic,
    CreationTime,
}

/// How directory entries are ordered before display: a kind of ordering and
/// whether the comparison is inverted.
#[derive(Clone, Copy, PartialEq, Eq, Structural, Debug)]
pub struct Sort {
    pub sort_type: SortType,
    pub reversed: bool,
}

/// The default sort order: alphabetic, ascending.
pub open spec fn default_sort() -> Sort {
    Sort { sort_type: SortType::Alphabetic, reversed: false }
}

impl Sort {
    /// The sort order before any option has been applied.
    pub fn default() -> (s: Sort)
        ensures
            s == default_sort(),
    {
        Sort { sort_type: SortType::Alphabetic, reversed: false }
    }

    /// Inverts the active sort order.
    pub fn reverse(&mut self)
        ensures
            *final(self) == (Sort { sort_type: old(self).sort_type, reversed: true }),
    {
        self.reversed = true;
    }

    pub fn reversed(&self) -> (r: bool)
        ensures
            r == self.reversed,
    {
        self.reversed
    }

    pub fn sort_type(&self) -> (t: &SortType)
        ensures
            *t == self.sort_type,
    {
        &self.sort_type
    }
}

/// The option flags enabled for one run of the command, set while the
/// arguments are parsed and read-only afterwards.
#[derive(Clone, Copy, PartialEq, Eq, Structural, Debug)]
pub struct Settings {
    /// Include entries whose name begins with the hidden marker `.`.
    pub list_all: bool,
    /// Print a long-format line per entry instead of the bare name.
    pub long_list: bool,
    /// The active sort order.
    pub sort: Sort,
}

/// The settings before any option has been applied: all flags off, alphabetic
/// ascending order.
pub open spec fn default_settings() -> Settings {
    Settings { list_all: false, long_list: false, sort: default_sort() }
}

/// Whether `c` is a recognized option character.
pub open spec fn recognized_option(c: char) -> bool {
    c == 'a' || c == 'l' || c == 'r'
}

/// The effect of a single option character on the settings. An unrecognized
/// character leaves them unchanged.
pub open spec fn apply_option_char(s: Settings, c: char) -> Settings {
    if c == 'a' {
        Settings { list_all: true, long_list: s.long_list, sort: s.sort }
    } else if c == 'l' {
        Settings { list_all: s.list_all, long_list: true, sort: s.sort }
    } else if c == 'r' {
        Settings {
            list_all: s.list_all,
            long_list: s.long_list,
            sort: Sort { sort_type: s.sort.sort_type, reversed: true },
        }
    } else {
        s
    }
}

/// The settings after applying every character of `cs` to `s`, in order.
pub open spec fn apply_option_chars(s: Settings, cs: Seq<char>) -> Settings
    decreases cs.len(),
{
    if cs.len() == 0 {
        s
    } else {
        apply_option_char(apply_option_chars(s, cs.drop_last()), cs.last())
    }
}

/// The unrecognized option characters of `cs`, in order.
pub open spec fn unrecognized_of(cs: Seq<char>) -> Seq<char>
    decreases cs.len(),
{
    if cs.len() == 0 {
        Seq::empty()
    } else if recognized_option(cs.last()) {
        unrecognized_of(cs.drop_last())
    } else {
        unrecognized_of(cs.drop_last()).push(cs.last())
    }
}

impl Settings {
    /// The settings before any option has been applied.
    pub fn default() -> (s: Settings)
        ensures
            s == default_settings(),
    {
        Settings { list_all: false, long_list: false, sort: Sort::default() }
    }

    /// Applies every option character in order and returns the unrecognized
    /// ones, so the caller can report each of them. An unrecognized character
    /// never stops the processing of the characters after it.
    pub fn try_apply_settings(&mut self, chars: &Vec<char>) -> (unrecognized: Vec<char>)
        ensures
            *final(self) == apply_option_chars(*old(self), chars@),
            unrecognized@ == unrecognized_of(chars@),
    {
        let mut unrecognized: Vec<char> = Vec::new();
        let mut i: usize = 0;
        while i < chars.len()
            invariant
                i <= chars.len(),
                *self == apply_option_chars(*old(self), chars@.take(i as int)),
                unrecognized@ == unrecognized_of(chars@.take(i as int)),
            decreases chars.len() - i,
        {
            let c = chars[i];
            if c == 'a' {
                self.list_all = true;
            } else if c == 'l' {
                self.long_list = true;
            } else if c == 'r' {
                self.sort.reverse();
            } else {
                unrecognized.push(c);
            }
            proof {
                assert(chars@.take(i + 1 as int).drop_last() =~= chars@.take(i as int));
                assert(chars@.take(i + 1 as int).last() == chars@[i as int]);
            }
            i += 1;
        }
        proof {
            assert(chars@.take(chars.len() as int) =~= chars@);
        }
        unrecognized
    }

    /// The active sort order.
    pub fn sort(&self) -> (r: &Sort)
        ensures
            *r == self.sort,
    {
        &self.sort
    }
}

/// Law: applying two flag-character sequences one after the other gives the
/// same settings as applying their concatenation. Hence flags given as
/// separate tokens (`-a -l -r`) and as one combined token (`-alr`) configure
/// identical settings.
pub proof fn lemma_apply_option_chars_split(s: Settings, a: Seq<char>, b: Seq<char>)
    ensures
        apply_option_chars(s, a + b) == apply_option_chars(apply_option_chars(s, a), b),
    decreases b.len(),
{
    if b.len() == 0 {
        assert(a + b =~= a);
    } else {
        lemma_apply_option_chars_split(s, a, b.drop_last());
        assert((a + b).drop_last() =~= a + b.drop_last());
    }
}

/// Law: an unrecognized option character leaves the settings unchanged, so
/// every recognized flag that comes after it still takes effect.
pub proof fn lemma_unrecognized_option_skipped(s: Settings, c: char, rest: Seq<char>)
    requires
        !recognized_option(c),
    ensures
        apply_option_chars(s, seq![c] + rest) == apply_option_chars(s, rest),
{
    lemma_apply_option_chars_split(s, seq![c], rest);
    assert(seq![c].drop_last() =~= Seq::<char>::empty());
    assert(seq![c].last() == c);
    assert(apply_option_chars(s, seq![c]) == apply_option_char(
        apply_option_chars(s, Seq::<char>::empty()),
        c,
    ));
    assert(apply_option_chars(s, seq![c]) == s);
}

} // verus!
