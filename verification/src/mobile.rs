//! What starting on Android takes: the order of setup, the entry of the application, and the
//! environment of a session.
use crate::text::{chars_of, find_char, split_once, trim_range, trimmed, Trim};
use crate::text::{split_is_at_the_first, trim_takes_both_ends};
use vstd::prelude::*;
use vstd::string::*;

verus! {

/// How far the setup of the native context has come.
#[derive(Clone, Copy, PartialEq, Eq, Structural, Debug)]
pub struct AndroidSetup {
    /// Whether a native context was ever initialized.
    pub initialized: bool,
    /// Whether the application's main function may run.
    pub ready: bool,
}

impl AndroidSetup {
    /// Nothing has been set up.
    pub fn new() -> (setup: AndroidSetup)
        ensures
            setup == (AndroidSetup { initialized: false, ready: false }),
    {
        AndroidSetup { initialized: false, ready: false }
    }

    /// Begins the setup of an activity's context. Returns whether an earlier context has to
    /// be released first: on activity recreation there is one.
    pub fn begin(&mut self) -> (release_first: bool)
        ensures
            release_first == old(self).initialized,
            *final(self) == (AndroidSetup { initialized: true, ..*old(self) }),
    {
        let release_first = self.initialized;
        self.initialized = true;
        release_first
    }

    /// Ends the setup: the application's main function may run from now on.
    pub fn finish(&mut self)
        ensures
            *final(self) == (AndroidSetup { ready: true, ..*old(self) }),
    {
        self.ready = true;
    }
}

/// The symbol under which the application's main function is linked.
#[derive(Clone, Copy, PartialEq, Eq, Structural, Debug)]
pub enum EntrySymbol {
    /// `main`.
    Main,
    /// `_main`.
    UnderscoredMain,
}

/// The symbol to enter the application by, where it is known which ones can be found:
/// `main` goes before `_main`, and with neither the application cannot be started.
pub fn entry_symbol(main: bool, underscored: bool) -> (chosen: Option<EntrySymbol>)
    ensures
        chosen == (if main {
            Some(EntrySymbol::Main)
        } else if underscored {
            Some(EntrySymbol::UnderscoredMain)
        } else {
            None
        }),
{
    if main {
        Some(EntrySymbol::Main)
    } else if underscored {
        Some(EntrySymbol::UnderscoredMain)
    } else {
        None
    }
}

/// The variable that a line sets: what stands before and behind the first `=` of the line,
/// without the white space around the line. A line without `=` sets none.
pub open spec fn line_entry(line: Seq<char>) -> Seq<(Seq<char>, Seq<char>)> {
    match split_once(trimmed(line, Trim::WhiteSpace), '=') {
        Some(entry) => seq![entry],
        None => Seq::empty(),
    }
}

/// The variables that the lines of an environment file set, in order.
pub open spec fn file_entries(text: Seq<char>) -> Seq<(Seq<char>, Seq<char>)>
    decreases text.len(),
{
    proof {
        text.index_of_first_ensures('\n');
    }
    match split_once(text, '\n') {
        Some((line, rest)) => line_entry(line) + file_entries(rest),
        None => line_entry(text),
    }
}

/// The text of an entry.
pub open spec fn entry_text(entry: (String, String)) -> (Seq<char>, Seq<char>) {
    (entry.0@, entry.1@)
}

/// Reads the variable that `text[from..to]` sets.
fn read_line(text: &str, chars: &Vec<char>, from: usize, to: usize) -> (entry: Option<
    (String, String),
>)
    requires
        chars@ == text@,
        from <= to <= chars@.len(),
    ensures
        line_entry(text@.subrange(from as int, to as int)) == (match entry {
            Some(entry) => seq![entry_text(entry)],
            None => Seq::empty(),
        }),
{
    let (start, end) = trim_range(chars, from, to, Trim::WhiteSpace);
    let ghost line = text@.subrange(start as int, end as int);
    proof {
        line.index_of_first_ensures('=');
    }
    let equals = find_char(chars, start, end, '=');
    if equals == end {
        return None;
    }
    let key = text.substring_char(start, equals).to_owned();
    let value = text.substring_char(equals + 1, end).to_owned();
    assert(key@ =~= line.take(equals - start));
    assert(value@ =~= line.skip(equals - start + 1));
    Some((key, value))
}

/// Reads the variables that the lines of an environment file set.
pub fn env_entries(text: &str) -> (entries: Vec<(String, String)>)
    ensures
        entries@.map_values(|entry: (String, String)| entry_text(entry)) == file_entries(text@),
        entries@.len() == file_entries(text@).len(),
        forall|i: int|
            0 <= i < entries@.len() ==> (#[trigger] entries@[i]).0@ == file_entries(text@)[i].0
                && entries@[i].1@ == file_entries(text@)[i].1,
{
    let chars = chars_of(text);
    let mut entries: Vec<(String, String)> = Vec::new();
    let mut from: usize = 0;
    let mut more = true;
    assert(text@.skip(0) =~= text@);
    while more
        invariant
            chars@ == text@,
            from <= chars@.len(),
            more ==> entries@.map_values(|entry: (String, String)| entry_text(entry))
                + file_entries(text@.skip(from as int)) == file_entries(text@),
            !more ==> entries@.map_values(|entry: (String, String)| entry_text(entry))
                == file_entries(text@),
        decreases chars@.len() - from + (if more { 1int } else { 0int }),
    {
        let ghost rest = text@.skip(from as int);
        let ghost so_far = entries@.map_values(|entry: (String, String)| entry_text(entry));
        let to = chars.len();
        assert(chars@.subrange(from as int, to as int) =~= rest);
        proof {
            rest.index_of_first_ensures('\n');
        }
        let newline = find_char(&chars, from, to, '\n');
        let entry = read_line(text, &chars, from, newline);
        let ghost line = text@.subrange(from as int, newline as int);
        if newline < to {
            assert(line =~= rest.take(newline - from));
            assert(rest.skip(newline - from + 1) =~= text@.skip(newline + 1));
        } else {
            assert(line =~= rest);
        }
        match entry {
            Some(entry) => {
                entries.push(entry);
            },
            None => {},
        }
        assert(entries@.map_values(|entry: (String, String)| entry_text(entry)) =~= so_far
            + line_entry(line));
        if newline < to {
            proof {
                let left = file_entries(text@.skip(newline + 1));
                assert(so_far + (line_entry(line) + left) =~= so_far + line_entry(line) + left);
            }
            from = newline + 1;
        } else {
            more = false;
        }
    }
    proof {
        let texts = entries@.map_values(|entry: (String, String)| entry_text(entry));
        assert(texts.len() == entries@.len());
        assert forall|i: int| 0 <= i < entries@.len() implies (#[trigger] entries@[i]).0@
            == file_entries(text@)[i].0 && entries@[i].1@ == file_entries(text@)[i].1 by {
            assert(texts[i] == entry_text(entries@[i]));
        }
    }
    entries
}

/// A line sets the variable that stands before its first `=` to what stands behind it,
/// whatever white space stands around the line; without an `=` it sets none.
pub proof fn line_sets_what_it_spells(
    lead: Seq<char>,
    key: Seq<char>,
    value: Seq<char>,
    tail: Seq<char>,
)
    requires
        forall|i: int| 0 <= i < lead.len() ==> Trim::WhiteSpace.takes(#[trigger] lead[i]),
        forall|i: int| 0 <= i < tail.len() ==> Trim::WhiteSpace.takes(#[trigger] tail[i]),
        !key.contains('='),
    ensures
        !Trim::WhiteSpace.takes((key + seq!['='] + value).first()) && !Trim::WhiteSpace.takes(
            (key + seq!['='] + value).last(),
        ) ==> line_entry(lead + (key + seq!['='] + value) + tail) == seq![(key, value)],
        (key.len() > 0 ==> !Trim::WhiteSpace.takes(key.first()) && !Trim::WhiteSpace.takes(
            key.last(),
        )) ==> line_entry(lead + key + tail) == Seq::<(Seq<char>, Seq<char>)>::empty(),
{
    let core = key + seq!['='] + value;
    split_is_at_the_first(key, '=', value);
    if !Trim::WhiteSpace.takes(core.first()) && !Trim::WhiteSpace.takes(core.last()) {
        trim_takes_both_ends(lead, core, tail, Trim::WhiteSpace);
    }
    if key.len() > 0 ==> !Trim::WhiteSpace.takes(key.first()) && !Trim::WhiteSpace.takes(
        key.last(),
    ) {
        trim_takes_both_ends(lead, key, tail, Trim::WhiteSpace);
    }
}

/// A file sets what its lines set, one after the other; the last line may lack its end.
pub proof fn file_is_read_line_by_line(line: Seq<char>, rest: Seq<char>)
    requires
        !line.contains('\n'),
    ensures
        file_entries(line) == line_entry(line),
        file_entries(line + seq!['\n'] + rest) == line_entry(line) + file_entries(rest),
{
    split_is_at_the_first(line, '\n', rest);
}

} // verus!
