use vstd::prelude::*;

use crate::ascii_string::AsciiString;

verus! {

/// `String::push` appends one character at the end of the string.
pub assume_specification[ String::push ](s: &mut String, ch: char)
    ensures
        final(s)@ == old(s)@.push(ch),
;

/// The state of the word splitter after it has read a prefix of its input.
#[verifier::ext_equal]
pub struct ScanState {
    /// The words completed so far.
    pub words: Seq<Seq<char>>,
    /// The characters of the word being read.
    pub current: Seq<char>,
    /// Whether a word has been started (it may still be empty: `""`).
    pub has_word: bool,
    /// Whether an opening `"` has been read and not yet closed.
    pub in_quotes: bool,
    /// Whether the last character read was an unconsumed `\`.
    pub escaped: bool,
}

pub open spec fn initial_scan() -> ScanState {
    ScanState { words: seq![], current: seq![], has_word: false, in_quotes: false, escaped: false }
}

/// Reading one character `c` in state `st`:
/// - after a backslash, `c` is taken literally;
/// - an unquoted space ends the current word, if there is one;
/// - a backslash escapes the next character;
/// - a double quote opens or closes a quoted section;
/// - anything else is part of the current word.
pub open spec fn scan_step(st: ScanState, c: char) -> ScanState {
    if st.escaped {
        ScanState { current: st.current.push(c), has_word: true, escaped: false, ..st }
    } else if c == ' ' && !st.in_quotes {
        if st.has_word {
            ScanState { words: st.words.push(st.current), current: seq![], has_word: false, ..st }
        } else {
            st
        }
    } else if c == '\\' {
        ScanState { escaped: true, ..st }
    } else if c == '"' {
        ScanState { in_quotes: !st.in_quotes, ..st }
    } else {
        ScanState { current: st.current.push(c), has_word: true, ..st }
    }
}

/// The state after reading all of `s`, one character at a time, from `st`.
pub open spec fn scan_from(st: ScanState, s: Seq<char>) -> ScanState
    decreases s.len(),
{
    if s.len() == 0 {
        st
    } else {
        scan_step(scan_from(st, s.drop_last()), s.last())
    }
}

/// The state after reading all of `s` from the start.
pub open spec fn scan(s: Seq<char>) -> ScanState {
    scan_from(initial_scan(), s)
}

/// The words of a finished scan: the completed ones, and the current one
/// if a word was started.
pub open spec fn finish_scan(st: ScanState) -> Seq<Seq<char>> {
    if st.has_word {
        st.words.push(st.current)
    } else {
        st.words
    }
}

/// The words of `s`, as `parse_into_words` splits them.
pub open spec fn split_words(s: Seq<char>) -> Seq<Seq<char>> {
    finish_scan(scan(s))
}

pub open spec fn word_views(words: Seq<String>) -> Seq<Seq<char>> {
    words.map_values(|w: String| w@)
}

/// A started word always holds what was read into it; before a word is
/// started nothing has been read into it.
pub open spec fn scan_consistent(st: ScanState) -> bool {
    !st.has_word ==> st.current.len() == 0
}

/// `st` with its completed words forgotten.
pub open spec fn without_words(st: ScanState) -> ScanState {
    ScanState { words: seq![], ..st }
}

/// A character that is read into the current word as it is: not a quote or
/// a backslash, and not a space unless inside quotes.
pub open spec fn is_plain(c: char, quoted: bool) -> bool {
    c != '"' && c != '\\' && (quoted || c != ' ')
}

/// Reading `a` and then `b` is reading `a + b`.
proof fn lemma_scan_concat(st: ScanState, a: Seq<char>, b: Seq<char>)
    ensures
        scan_from(st, a + b) == scan_from(scan_from(st, a), b),
    decreases b.len(),
{
    if b.len() == 0 {
        assert(a + b =~= a);
    } else {
        lemma_scan_concat(st, a, b.drop_last());
        assert((a + b).drop_last() =~= a + b.drop_last());
        assert((a + b).last() == b.last());
    }
}

/// The words completed before a stretch of input are kept in front of those
/// completed while reading it.
proof fn lemma_scan_keeps_words(st: ScanState, s: Seq<char>)
    ensures
        scan_from(st, s) =~= (ScanState {
            words: st.words + scan_from(without_words(st), s).words,
            ..scan_from(without_words(st), s)
        }),
    decreases s.len(),
{
    if s.len() == 0 {
        assert(st.words + Seq::<Seq<char>>::empty() =~= st.words);
    } else {
        lemma_scan_keeps_words(st, s.drop_last());
        let prev = scan_from(without_words(st), s.drop_last());
        assert((st.words + prev.words).push(prev.current) =~= st.words + prev.words.push(
            prev.current,
        ));
    }
}

/// Every state reached from the start is consistent.
proof fn lemma_scan_consistent(s: Seq<char>)
    ensures
        scan_consistent(scan(s)),
    decreases s.len(),
{
    if s.len() > 0 {
        lemma_scan_consistent(s.drop_last());
    }
}

/// Plain characters are appended to the current word.
proof fn lemma_scan_plain(st: ScanState, w: Seq<char>)
    requires
        !st.escaped,
        forall|i: int| 0 <= i < w.len() ==> is_plain(#[trigger] w[i], st.in_quotes),
    ensures
        scan_from(st, w) =~= (ScanState {
            current: st.current + w,
            has_word: st.has_word || w.len() > 0,
            ..st
        }),
    decreases w.len(),
{
    if w.len() == 0 {
        assert(st.current + w =~= st.current);
    } else {
        lemma_scan_plain(st, w.drop_last());
        assert(is_plain(w[w.len() - 1], st.in_quotes));
        assert((st.current + w.drop_last()).push(w.last()) =~= st.current + w);
    }
}

/// The state after reading one character from `st`.
proof fn lemma_scan_one(st: ScanState, c: char)
    ensures
        scan_from(st, seq![c]) == scan_step(st, c),
{
    assert(seq![c].drop_last() =~= Seq::<char>::empty());
    assert(scan_from(st, seq![c].drop_last()) == st);
}

/// A space that is neither quoted nor escaped separates words: the words of
/// `a`, a space, then `b` are the words of `a` followed by the words of `b`.
pub proof fn law_space_separates(a: Seq<char>, b: Seq<char>)
    requires
        !scan(a).in_quotes,
        !scan(a).escaped,
    ensures
        split_words(a + seq![' '] + b) == split_words(a) + split_words(b),
{
    lemma_scan_concat(initial_scan(), a + seq![' '], b);
    lemma_scan_concat(initial_scan(), a, seq![' ']);
    lemma_scan_one(scan(a), ' ');
    lemma_scan_consistent(a);
    let mid = scan(a + seq![' ']);
    assert(mid =~= (ScanState {
        words: split_words(a),
        current: seq![],
        has_word: false,
        in_quotes: false,
        escaped: false,
    }));
    lemma_scan_keeps_words(mid, b);
    assert(without_words(mid) =~= initial_scan());
    let rest = scan(b);
    if rest.has_word {
        assert((split_words(a) + rest.words).push(rest.current) =~= split_words(a) + rest.words.push(
            rest.current,
        ));
    }
}

/// Leading spaces are ignored.
pub proof fn law_leading_space_ignored(s: Seq<char>)
    ensures
        split_words(seq![' '] + s) == split_words(s),
{
    let empty = Seq::<char>::empty();
    law_space_separates(empty, s);
    assert(empty + seq![' '] + s =~= seq![' '] + s);
    assert(split_words(empty) =~= Seq::<Seq<char>>::empty());
    assert(Seq::<Seq<char>>::empty() + split_words(s) =~= split_words(s));
}

/// A space after the last word, outside quotes and not escaped, is ignored.
pub proof fn law_trailing_space_ignored(a: Seq<char>)
    requires
        !scan(a).in_quotes,
        !scan(a).escaped,
    ensures
        split_words(a + seq![' ']) == split_words(a),
{
    let empty = Seq::<char>::empty();
    law_space_separates(a, empty);
    assert(a + seq![' '] + empty =~= a + seq![' ']);
    assert(split_words(empty) =~= Seq::<Seq<char>>::empty());
    assert(split_words(a) + Seq::<Seq<char>>::empty() =~= split_words(a));
}

/// Multiple spaces are merged: outside quotes, two spaces split as one.
pub proof fn law_spaces_merge(a: Seq<char>, b: Seq<char>)
    requires
        !scan(a).in_quotes,
        !scan(a).escaped,
    ensures
        split_words(a + seq![' ', ' '] + b) == split_words(a + seq![' '] + b),
{
    law_space_separates(a, seq![' '] + b);
    law_leading_space_ignored(b);
    law_space_separates(a, b);
    assert(a + seq![' ', ' '] + b =~= a + seq![' '] + (seq![' '] + b));
}

/// A word of plain characters is one word.
pub proof fn law_plain_word(w: Seq<char>)
    requires
        w.len() > 0,
        forall|i: int| 0 <= i < w.len() ==> is_plain(#[trigger] w[i], false),
    ensures
        split_words(w) == seq![w],
{
    lemma_scan_plain(initial_scan(), w);
    assert(Seq::<char>::empty() + w =~= w);
}

/// Words can be quoted: a quoted stretch without quotes or backslashes in
/// it, spaces included, is one word.
pub proof fn law_quoted_word(w: Seq<char>)
    requires
        w.len() > 0,
        forall|i: int| 0 <= i < w.len() ==> is_plain(#[trigger] w[i], true),
    ensures
        split_words(seq!['"'] + w + seq!['"']) == seq![w],
{
    let open = seq!['"'];
    lemma_scan_one(initial_scan(), '"');
    let opened = scan(open);
    lemma_scan_plain(opened, w);
    lemma_scan_concat(initial_scan(), open, w);
    lemma_scan_concat(initial_scan(), open + w, seq!['"']);
    lemma_scan_one(scan(open + w), '"');
    assert(Seq::<char>::empty() + w =~= w);
}

/// A backslash treats the next character literally.
pub proof fn law_escaped_char(c: char)
    ensures
        split_words(seq!['\\', c]) == seq![seq![c]],
{
    lemma_scan_concat(initial_scan(), seq!['\\'], seq![c]);
    lemma_scan_one(initial_scan(), '\\');
    lemma_scan_one(scan(seq!['\\']), c);
    assert(seq!['\\'] + seq![c] =~= seq!['\\', c]);
    assert(Seq::<char>::empty().push(c) =~= seq![c]);
}

/// A backslash and the character after it, read in a state with no pending
/// escape, append that character to the current word.
proof fn lemma_scan_escape(st: ScanState, c: char)
    requires
        !st.escaped,
    ensures
        scan_from(st, seq!['\\', c]) == (ScanState {
            current: st.current.push(c),
            has_word: true,
            ..st
        }),
{
    lemma_scan_concat(st, seq!['\\'], seq![c]);
    assert(seq!['\\'] + seq![c] =~= seq!['\\', c]);
    lemma_scan_one(st, '\\');
    lemma_scan_one(scan_from(st, seq!['\\']), c);
}

/// Plain characters outside quotes, read from the start: one word in the
/// making, holding exactly them.
proof fn lemma_scan_plain_start(w: Seq<char>)
    requires
        forall|i: int| 0 <= i < w.len() ==> w[i] != ' ' && w[i] != '"' && w[i] != '\\',
    ensures
        scan(w) == (ScanState {
            words: seq![],
            current: w,
            has_word: w.len() > 0,
            in_quotes: false,
            escaped: false,
        }),
{
    assert forall|i: int| 0 <= i < w.len() implies is_plain(#[trigger] w[i], false) by {}
    lemma_scan_plain(initial_scan(), w);
    assert(Seq::<char>::empty() + w =~= w);
}

/// Whatever state the scan is in, a backslash followed by any character
/// `c` leaves the completed words, the quoting and the pending-escape flag as
/// they were, starts a word if none was started, and appends exactly `c` to
/// it.
pub proof fn law_backslash_appends_next_char(s: Seq<char>, c: char)
    requires
        !scan(s).escaped,
    ensures
        scan(s + seq!['\\', c]).words == scan(s).words,
        scan(s + seq!['\\', c]).current == scan(s).current.push(c),
        scan(s + seq!['\\', c]).has_word,
        scan(s + seq!['\\', c]).in_quotes == scan(s).in_quotes,
        !scan(s + seq!['\\', c]).escaped,
{
    lemma_scan_concat(initial_scan(), s, seq!['\\', c]);
    lemma_scan_escape(scan(s), c);
}

/// A backslash inside a word puts the next character, whatever it is
/// (space, quote or backslash), into that word: with `a` and `b` free of
/// spaces, quotes and backslashes, `a\cb` is the single word `a c b`.
pub proof fn law_escaped_char_joins_word(a: Seq<char>, c: char, b: Seq<char>)
    requires
        forall|i: int| 0 <= i < a.len() ==> a[i] != ' ' && a[i] != '"' && a[i] != '\\',
        forall|i: int| 0 <= i < b.len() ==> b[i] != ' ' && b[i] != '"' && b[i] != '\\',
    ensures
        split_words(a + seq!['\\', c] + b) == seq![a + seq![c] + b],
{
    lemma_scan_plain_start(a);
    lemma_scan_concat(initial_scan(), a, seq!['\\', c]);
    lemma_scan_escape(scan(a), c);
    let mid = scan(a + seq!['\\', c]);
    assert forall|i: int| 0 <= i < b.len() implies is_plain(#[trigger] b[i], false) by {}
    lemma_scan_plain(mid, b);
    lemma_scan_concat(initial_scan(), a + seq!['\\', c], b);
    assert(a.push(c) + b =~= a + seq![c] + b);
}

/// A backslash inside quotes also takes the next character literally:
/// `"a\cb"` is the single word `a c b` when `a` and `b` hold no quotes or
/// backslashes (spaces allowed).
pub proof fn law_escaped_char_in_quotes(a: Seq<char>, c: char, b: Seq<char>)
    requires
        forall|i: int| 0 <= i < a.len() ==> a[i] != '"' && a[i] != '\\',
        forall|i: int| 0 <= i < b.len() ==> b[i] != '"' && b[i] != '\\',
    ensures
        split_words(seq!['"'] + a + seq!['\\', c] + b + seq!['"']) == seq![a + seq![c] + b],
{
    let open = seq!['"'];
    lemma_scan_one(initial_scan(), '"');
    assert forall|i: int| 0 <= i < a.len() implies is_plain(#[trigger] a[i], true) by {}
    assert forall|i: int| 0 <= i < b.len() implies is_plain(#[trigger] b[i], true) by {}
    lemma_scan_plain(scan(open), a);
    lemma_scan_concat(initial_scan(), open, a);
    let s1 = open + a;
    lemma_scan_escape(scan(s1), c);
    lemma_scan_concat(initial_scan(), s1, seq!['\\', c]);
    let s2 = s1 + seq!['\\', c];
    lemma_scan_plain(scan(s2), b);
    lemma_scan_concat(initial_scan(), s2, b);
    let s3 = s2 + b;
    lemma_scan_concat(initial_scan(), s3, seq!['"']);
    lemma_scan_one(scan(s3), '"');
    assert(Seq::<char>::empty() + a =~= a);
    assert(a.push(c) + b =~= a + seq![c] + b);
}

/// Quotes group: a quoted stretch (spaces allowed, no quotes or
/// backslashes) between two unquoted plain stretches joins them into one
/// word; only `""` with nothing around it makes no word at all.
pub proof fn law_quotes_join_word(a: Seq<char>, q: Seq<char>, b: Seq<char>)
    requires
        forall|i: int| 0 <= i < a.len() ==> a[i] != ' ' && a[i] != '"' && a[i] != '\\',
        forall|i: int| 0 <= i < q.len() ==> q[i] != '"' && q[i] != '\\',
        forall|i: int| 0 <= i < b.len() ==> b[i] != ' ' && b[i] != '"' && b[i] != '\\',
    ensures
        split_words(a + seq!['"'] + q + seq!['"'] + b) == if a.len() + q.len() + b.len() > 0 {
            seq![a + q + b]
        } else {
            seq![]
        },
{
    lemma_scan_plain_start(a);
    lemma_scan_concat(initial_scan(), a, seq!['"']);
    lemma_scan_one(scan(a), '"');
    let s1 = a + seq!['"'];
    assert forall|i: int| 0 <= i < q.len() implies is_plain(#[trigger] q[i], true) by {}
    lemma_scan_plain(scan(s1), q);
    lemma_scan_concat(initial_scan(), s1, q);
    let s2 = s1 + q;
    lemma_scan_concat(initial_scan(), s2, seq!['"']);
    lemma_scan_one(scan(s2), '"');
    let s3 = s2 + seq!['"'];
    assert forall|i: int| 0 <= i < b.len() implies is_plain(#[trigger] b[i], false) by {}
    lemma_scan_plain(scan(s3), b);
    lemma_scan_concat(initial_scan(), s3, b);
    assert(a + q + b =~= (a + q) + b);
}

/// A quote that is never closed runs to the end of the input: what follows
/// it (spaces included, no quotes or backslashes) is one last word.
pub proof fn law_unclosed_quote_runs_to_end(a: Seq<char>, q: Seq<char>)
    requires
        forall|i: int| 0 <= i < a.len() ==> a[i] != ' ' && a[i] != '"' && a[i] != '\\',
        forall|i: int| 0 <= i < q.len() ==> q[i] != '"' && q[i] != '\\',
    ensures
        split_words(a + seq!['"'] + q) == if a.len() + q.len() > 0 {
            seq![a + q]
        } else {
            seq![]
        },
{
    lemma_scan_plain_start(a);
    lemma_scan_concat(initial_scan(), a, seq!['"']);
    lemma_scan_one(scan(a), '"');
    let s1 = a + seq!['"'];
    assert forall|i: int| 0 <= i < q.len() implies is_plain(#[trigger] q[i], true) by {}
    lemma_scan_plain(scan(s1), q);
    lemma_scan_concat(initial_scan(), s1, q);
}

/// A backslash at the very end escapes nothing and is dropped.
pub proof fn law_trailing_backslash_dropped(a: Seq<char>)
    requires
        forall|i: int| 0 <= i < a.len() ==> a[i] != ' ' && a[i] != '"' && a[i] != '\\',
    ensures
        split_words(a + seq!['\\']) == if a.len() > 0 {
            seq![a]
        } else {
            seq![]
        },
{
    lemma_scan_plain_start(a);
    lemma_scan_concat(initial_scan(), a, seq!['\\']);
    lemma_scan_one(scan(a), '\\');
}

/// The empty input has no words.
pub proof fn law_empty_input()
    ensures
        split_words(Seq::empty()) == Seq::<Seq<char>>::empty(),
{
}

/// Split a string into space-separated words, where:
///
/// - Leading spaces are ignored: ` hello world` is [`hello`,`world`]
/// - Multiple spaces are merged: `hello  world` is [`hello`,`world`]
/// - Words can be quoted: `hello "world foo" bar` is [`hello`,`world foo`,`bar`]
/// - A backslash treats the next character literally: `hello\ world` is [`hello world`]
pub fn parse_into_words(ascii_input: AsciiString) -> (words: Vec<String>)
    ensures
        word_views(words@) == split_words(ascii_input.0@),
{
    let AsciiString(input) = ascii_input;
    let mut words: Vec<String> = Vec::new();
    let mut current = String::new();
    let mut has_word = false;
    let mut in_quotes = false;
    let mut escaped = false;
    proof {
        broadcast use vstd::string::group_string_axioms;
        assert(input@.take(0) =~= Seq::<char>::empty());
        assert(word_views(words@) =~= Seq::<Seq<char>>::empty());
    }
    for c in chars: input.chars()
        invariant
            chars.seq() == input@,
            scan(input@.take(chars.index() as int)) == (ScanState {
                words: word_views(words@),
                current: current@,
                has_word,
                in_quotes,
                escaped,
            }),
    {
        proof {
            assert(input@.take(chars.index() + 1).drop_last() =~= input@.take(chars.index() as int));
        }
        if escaped {
            current.push(c);
            has_word = true;
            escaped = false;
        } else if c == ' ' && !in_quotes {
            if has_word {
                let ghost old_words = word_views(words@);
                let ghost finished = current@;
                words.push(current);
                current = String::new();
                has_word = false;
                proof {
                    assert(word_views(words@) =~= old_words.push(finished));
                }
            }
        } else if c == '\\' {
            escaped = true;
        } else if c == '"' {
            in_quotes = !in_quotes;
        } else {
            current.push(c);
            has_word = true;
        }
    }
    proof {
        assert(input@.take(input@.len() as int) =~= input@);
    }
    if has_word {
        let ghost old_words = words@;
        words.push(current);
        proof {
            assert(word_views(words@) =~= word_views(old_words).push(words@.last()@));
        }
    }
    words
}

} // verus!
