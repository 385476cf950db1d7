//! Splitting and joining of text on a separator character.

use vstd::prelude::*;
use vstd::string::*;

verus! {

/// The position of the last `sep` in `s`, or `-1` where `s` holds none.
pub open spec fn last_index_of(s: Seq<char>, sep: char) -> int
    decreases s.len(),
{
    if s.len() == 0 {
        -1
    } else if s.last() == sep {
        s.len() - 1
    } else {
        last_index_of(s.drop_last(), sep)
    }
}

/// The pieces of `s` between occurrences of `sep`. A text without `sep` is one
/// piece; `n` separators give `n + 1` pieces, some of which may be empty.
pub open spec fn split(s: Seq<char>, sep: char) -> Seq<Seq<char>>
    decreases s.len(),
{
    let k = last_index_of(s, sep);
    if 0 <= k < s.len() {
        split(s.subrange(0, k), sep).push(s.subrange(k + 1, s.len() as int))
    } else {
        seq![s]
    }
}

/// The pieces put back together with `sep` between neighbours.
pub open spec fn join(pieces: Seq<Seq<char>>, sep: Seq<char>) -> Seq<char>
    decreases pieces.len(),
{
    if pieces.len() == 0 {
        Seq::empty()
    } else if pieces.len() == 1 {
        pieces[0]
    } else {
        join(pieces.drop_last(), sep) + sep + pieces.last()
    }
}

/// The texts that a vector of strings holds.
pub open spec fn views(strings: Seq<String>) -> Seq<Seq<char>> {
    strings.map_values(|s: String| s@)
}

/// `last_index_of` names a position that holds `sep` and has none after it.
pub proof fn lemma_last_index_of(s: Seq<char>, sep: char)
    ensures
        -1 <= last_index_of(s, sep) < s.len(),
        last_index_of(s, sep) >= 0 ==> s[last_index_of(s, sep)] == sep,
        forall|j: int| last_index_of(s, sep) < j < s.len() ==> s[j] != sep,
        last_index_of(s, sep) == -1 <==> !s.contains(sep),
    decreases s.len(),
{
    if s.len() > 0 && s.last() != sep {
        lemma_last_index_of(s.drop_last(), sep);
        let r = last_index_of(s.drop_last(), sep);
        assert forall|j: int| r < j < s.len() implies s[j] != sep by {
            if j < s.len() - 1 {
                assert(s.drop_last()[j] == s[j]);
            }
        }
        if r >= 0 {
            assert(s[r] == s.drop_last()[r]);
        }
    }
}

/// A position that holds `sep` with none after it is the last one.
pub proof fn lemma_last_index_of_is(s: Seq<char>, sep: char, k: int)
    requires
        0 <= k < s.len(),
        s[k] == sep,
        forall|j: int| k < j < s.len() ==> s[j] != sep,
    ensures
        last_index_of(s, sep) == k,
{
    lemma_last_index_of(s, sep);
}

/// A text without `sep` splits into itself alone.
pub proof fn lemma_split_without_sep(s: Seq<char>, sep: char)
    requires
        !s.contains(sep),
    ensures
        split(s, sep) == seq![s],
{
    lemma_last_index_of(s, sep);
}

/// Splitting `head`, `sep`, `tail` where `tail` holds no `sep` gives the pieces
/// of `head` followed by `tail`.
pub proof fn lemma_split_push(head: Seq<char>, tail: Seq<char>, sep: char)
    requires
        !tail.contains(sep),
    ensures
        split(head + seq![sep] + tail, sep) == split(head, sep).push(tail),
{
    let s = head + seq![sep] + tail;
    let k = head.len() as int;
    assert forall|j: int| k < j < s.len() implies s[j] != sep by {
        assert(s[j] == tail[j - k - 1]);
        assert(tail.contains(tail[j - k - 1]));
    }
    lemma_last_index_of_is(s, sep, k);
    assert(s.subrange(0, k) == head);
    assert(s.subrange(k + 1, s.len() as int) == tail);
}

/// Splitting never gives an empty list, and no piece holds the separator.
pub proof fn lemma_split_pieces(s: Seq<char>, sep: char)
    ensures
        split(s, sep).len() >= 1,
        forall|i: int| 0 <= i < split(s, sep).len() ==> !(#[trigger] split(s, sep)[i]).contains(sep),
    decreases s.len(),
{
    lemma_last_index_of(s, sep);
    let k = last_index_of(s, sep);
    if 0 <= k < s.len() {
        let head = s.subrange(0, k);
        let tail = s.subrange(k + 1, s.len() as int);
        lemma_split_pieces(head, sep);
        assert forall|j: int| 0 <= j < tail.len() implies tail[j] != sep by {
            assert(tail[j] == s[k + 1 + j]);
        }
        assert forall|i: int| 0 <= i < split(s, sep).len() implies !(#[trigger] split(s, sep)[i]).contains(sep) by {
            if i < split(head, sep).len() {
                assert(split(s, sep)[i] == split(head, sep)[i]);
            } else {
                assert(split(s, sep)[i] == tail);
            }
        }
    }
}

/// Joining what `split` gave restores the text.
pub proof fn lemma_join_split(s: Seq<char>, sep: char)
    ensures
        join(split(s, sep), seq![sep]) == s,
    decreases s.len(),
{
    lemma_last_index_of(s, sep);
    let k = last_index_of(s, sep);
    if 0 <= k < s.len() {
        let head = s.subrange(0, k);
        let tail = s.subrange(k + 1, s.len() as int);
        lemma_join_split(head, sep);
        lemma_split_pieces(head, sep);
        let pieces = split(head, sep).push(tail);
        assert(pieces.drop_last() == split(head, sep));
        assert(pieces.last() == tail);
        assert(head + seq![sep] + tail == s);
    }
}

/// Splitting a join of separator-free pieces restores the pieces.
pub proof fn lemma_split_join(pieces: Seq<Seq<char>>, sep: char)
    requires
        pieces.len() >= 1,
        forall|i: int| 0 <= i < pieces.len() ==> !(#[trigger] pieces[i]).contains(sep),
    ensures
        split(join(pieces, seq![sep]), sep) == pieces,
    decreases pieces.len(),
{
    if pieces.len() == 1 {
        lemma_split_without_sep(pieces[0], sep);
    } else {
        lemma_split_join(pieces.drop_last(), sep);
        lemma_split_push(join(pieces.drop_last(), seq![sep]), pieces.last(), sep);
        assert(pieces.drop_last().push(pieces.last()) == pieces);
    }
}

/// While a scan of `s` stands at `end`, with the current piece begun at `start`,
/// the pieces of the text before `end` are those found so far and the current one.
proof fn lemma_split_scan(s: Seq<char>, sep: char, start: int, end: int)
    requires
        0 <= start <= end <= s.len(),
        forall|j: int| start <= j < end ==> s[j] != sep,
        start > 0 ==> s[start - 1] == sep,
    ensures
        split(s.subrange(0, end), sep) == (if start == 0 {
            Seq::<Seq<char>>::empty()
        } else {
            split(s.subrange(0, start - 1), sep)
        }).push(s.subrange(start, end)),
{
    let t = s.subrange(0, end);
    if start == 0 {
        assert(!t.contains(sep));
        lemma_split_without_sep(t, sep);
        assert(seq![t] == Seq::<Seq<char>>::empty().push(t));
    } else {
        lemma_last_index_of_is(t, sep, start - 1);
        assert(t.subrange(0, start - 1) == s.subrange(0, start - 1));
        assert(t.subrange(start, t.len() as int) == s.subrange(start, end));
    }
}

/// The characters of a string, in order.
pub fn to_chars(s: &str) -> (chars: Vec<char>)
    ensures
        chars@ == s@,
{
    broadcast use vstd::string::group_string_axioms;

    let mut chars: Vec<char> = Vec::new();
    for c in it: s.chars()
        invariant
            it.seq() == s@,
            chars@ == it.seq().subrange(0, it.index() as int),
    {
        chars.push(c);
    }
    chars
}

/// Whether `c` occurs in `s`.
pub fn contains_char(s: &str, c: char) -> (found: bool)
    ensures
        found == s@.contains(c),
{
    let chars = to_chars(s);
    let mut i: usize = 0;
    while i < chars.len()
        invariant
            chars@ == s@,
            i <= chars.len(),
            forall|j: int| 0 <= j < i ==> s@[j] != c,
        decreases chars.len() - i,
    {
        if chars[i] == c {
            return true;
        }
        i = i + 1;
    }
    false
}

/// Whether two strings hold the same text.
pub fn same_text(a: &str, b: &str) -> (same: bool)
    ensures
        same == (a@ == b@),
{
    let left = to_chars(a);
    let right = to_chars(b);
    if left.len() != right.len() {
        return false;
    }
    let mut i: usize = 0;
    while i < left.len()
        invariant
            left@ == a@,
            right@ == b@,
            left.len() == right.len(),
            i <= left.len(),
            a@.take(i as int) == b@.take(i as int),
        decreases left.len() - i,
    {
        if left[i] != right[i] {
            return false;
        }
        proof {
            assert(a@.take(i + 1) == a@.take(i as int).push(a@[i as int]));
            assert(b@.take(i + 1) == b@.take(i as int).push(b@[i as int]));
        }
        i = i + 1;
    }
    proof {
        assert(a@.take(a@.len() as int) == a@);
        assert(b@.take(b@.len() as int) == b@);
    }
    true
}

/// Splits `s` at every `sep`.
pub fn split_str(s: &str, sep: char) -> (pieces: Vec<String>)
    ensures
        views(pieces@) == split(s@, sep),
{
    let chars = to_chars(s);
    let n: usize = chars.len();
    let mut pieces: Vec<String> = Vec::new();
    let mut start: usize = 0;
    let mut i: usize = 0;
    while i < n
        invariant
            chars@ == s@,
            n == chars.len(),
            start <= i <= n,
            forall|j: int| start <= j < i ==> s@[j] != sep,
            start > 0 ==> s@[start - 1] == sep,
            views(pieces@) == (if start == 0 {
                Seq::<Seq<char>>::empty()
            } else {
                split(s@.subrange(0, start - 1), sep)
            }),
        decreases n - i,
    {
        if chars[i] == sep {
            let piece = s.substring_char(start, i).to_owned();
            proof {
                lemma_split_scan(s@, sep, start as int, i as int);
                assert(views(pieces@.push(piece)) == views(pieces@).push(piece@));
            }
            pieces.push(piece);
            start = i + 1;
        }
        i = i + 1;
    }
    let piece = s.substring_char(start, n).to_owned();
    proof {
        lemma_split_scan(s@, sep, start as int, n as int);
        assert(views(pieces@.push(piece)) == views(pieces@).push(piece@));
        assert(s@.subrange(0, n as int) == s@);
    }
    pieces.push(piece);
    pieces
}

/// Joins the pieces with `sep` between neighbours.
pub fn join_str(pieces: &Vec<String>, sep: &str) -> (joined: String)
    ensures
        joined@ == join(views(pieces@), sep@),
{
    let mut joined = String::new();
    let mut i: usize = 0;
    while i < pieces.len()
        invariant
            i <= pieces.len(),
            joined@ == join(views(pieces@).take(i as int), sep@),
        decreases pieces.len() - i,
    {
        proof {
            let before = views(pieces@).take(i as int);
            let after = views(pieces@).take(i + 1);
            assert(after.drop_last() == before);
            assert(after.last() == pieces@[i as int]@);
        }
        if i > 0 {
            joined.append(sep);
        }
        joined.append(pieces[i].as_str());
        i = i + 1;
    }
    proof {
        assert(views(pieces@).take(pieces.len() as int) == views(pieces@));
    }
    joined
}

/// The character that stands for a digit below ten.
pub open spec fn digit(d: nat) -> char {
    seq!['0', '1', '2', '3', '4', '5', '6', '7', '8', '9'][d as int]
}

/// The decimal numeral of `n`, without leading zeros.
pub open spec fn decimal(n: nat) -> Seq<char>
    decreases n,
{
    if n < 10 {
        seq![digit(n)]
    } else {
        decimal(n / 10).push(digit(n % 10))
    }
}

/// `count` times the text `unit`, end to end.
pub open spec fn repeated(unit: Seq<char>, count: nat) -> Seq<char>
    decreases count,
{
    if count == 0 {
        Seq::empty()
    } else {
        repeated(unit, (count - 1) as nat) + unit
    }
}

/// The numeral of a digit below ten.
fn digit_str(d: u64) -> (numeral: &'static str)
    requires
        d < 10,
    ensures
        numeral@ == seq![digit(d as nat)],
{
    proof {
        reveal_strlit("0");
        reveal_strlit("1");
        reveal_strlit("2");
        reveal_strlit("3");
        reveal_strlit("4");
        reveal_strlit("5");
        reveal_strlit("6");
        reveal_strlit("7");
        reveal_strlit("8");
        reveal_strlit("9");
    }
    let numeral = if d == 0 {
        "0"
    } else if d == 1 {
        "1"
    } else if d == 2 {
        "2"
    } else if d == 3 {
        "3"
    } else if d == 4 {
        "4"
    } else if d == 5 {
        "5"
    } else if d == 6 {
        "6"
    } else if d == 7 {
        "7"
    } else if d == 8 {
        "8"
    } else {
        "9"
    };
    assert(numeral@ =~= seq![digit(d as nat)]);
    numeral
}

/// The decimal numeral of `n`.
pub fn decimal_str(n: u64) -> (numeral: String)
    ensures
        numeral@ == decimal(n as nat),
    decreases n,
{
    if n < 10 {
        String::from_str(digit_str(n))
    } else {
        let mut numeral = decimal_str(n / 10);
        numeral.append(digit_str(n % 10));
        numeral
    }
}

/// `count` times the text `unit`, end to end.
pub fn repeat_str(unit: &str, count: u64) -> (text: String)
    ensures
        text@ == repeated(unit@, count as nat),
{
    let mut text = String::new();
    let mut i: u64 = 0;
    while i < count
        invariant
            i <= count,
            text@ == repeated(unit@, i as nat),
        decreases count - i,
    {
        text.append(unit);
        i = i + 1;
    }
    text
}

} // verus!
