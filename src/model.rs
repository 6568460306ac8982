//! The mathematical model of a scan: the state carried from token to token, and the
//! result that a whole token sequence yields.

use vstd::prelude::*;

verus! {

/// Option names mapped to the values attached to them, in order of attachment.
pub type OptValues = Map<Seq<char>, Seq<Seq<char>>>;

/// Views of a sequence of strings.
pub open spec fn strs(v: Seq<String>) -> Seq<Seq<char>> {
    v.map_values(|s: String| s@)
}

/// Appends `v` to the values of `k`, creating the entry if it is missing.
pub open spec fn add_value(m: OptValues, k: Seq<char>, v: Seq<char>) -> OptValues {
    if m.contains_key(k) {
        m.insert(k, m[k].push(v))
    } else {
        m.insert(k, seq![v])
    }
}

/// Makes sure that `k` has an entry, leaving an existing one as it is.
pub open spec fn add_key(m: OptValues, k: Seq<char>) -> OptValues {
    if m.contains_key(k) {
        m
    } else {
        m.insert(k, Seq::empty())
    }
}

/// Whether a character has Unicode's Alphabetic property.
pub uninterp spec fn alphabetic(c: char) -> bool;

/// An ASCII decimal digit.
pub open spec fn is_digit(c: char) -> bool {
    '0' <= c <= '9'
}

/// A character that ends a run of clustered short options: what follows belongs to the
/// option before it as a value.
pub open spec fn breaks(c: char) -> bool {
    is_digit(c) || !alphabetic(c)
}

/// The index of the first `=` in `s` at or after `i`, or -1 where there is none.
pub open spec fn find_eq(s: Seq<char>, i: int) -> int
    decreases s.len() - i,
{
    if i < 0 || i >= s.len() {
        -1
    } else if s[i] == '=' {
        i
    } else {
        find_eq(s, i + 1)
    }
}

/// What a scan carries from one token to the next.
pub struct ScanState {
    /// Positional arguments so far, in order.
    pub args: Seq<Seq<char>>,
    /// Options seen so far, with their values.
    pub opts: OptValues,
    /// An option that may still take the next token as its value.
    pub key: Option<Seq<char>>,
    /// Whether the terminator `--` has been seen.
    pub dashdash: bool,
}

/// The state before the first token.
pub open spec fn initial() -> ScanState {
    ScanState { args: Seq::empty(), opts: Map::empty(), key: None, dashdash: false }
}

/// Resolves a pending option as present without a value.
pub open spec fn flush(st: ScanState) -> ScanState {
    match st.key {
        Some(k) => ScanState { opts: add_key(st.opts, k), key: None, ..st },
        None => st,
    }
}

/// Gives `k` a value and clears the pending option.
pub open spec fn with_value(st: ScanState, k: Seq<char>, v: Seq<char>) -> ScanState {
    ScanState { opts: add_value(st.opts, k, v), key: None, ..st }
}

/// A short option letter `c` read while no option is pending: present at once where it is
/// declared boolean, else pending.
pub open spec fn take_letter(bools: Set<Seq<char>>, st: ScanState, c: char) -> ScanState {
    if bools.contains(seq![c]) {
        ScanState { opts: add_key(st.opts, seq![c]), ..st }
    } else {
        ScanState { key: Some(seq![c]), ..st }
    }
}

/// The last letter of a short option cluster `s`.
pub open spec fn last_letter(bools: Set<Seq<char>>, st: ScanState, s: Seq<char>) -> ScanState {
    let c = s[s.len() - 1];
    if st.key is Some && !bools.contains(seq![c]) && breaks(c) {
        with_value(st, st.key->0, seq![c])
    } else {
        take_letter(bools, flush(st), c)
    }
}

/// The letters of a short option cluster `s` from index `i` on, up to and with the last.
pub open spec fn cluster(bools: Set<Seq<char>>, st: ScanState, s: Seq<char>, i: int) -> ScanState
    decreases s.len() - i,
{
    if i >= s.len() - 1 {
        last_letter(bools, st, s)
    } else if st.key is Some && breaks(s[i]) {
        with_value(st, st.key->0, s.subrange(i, s.len() as int))
    } else {
        cluster(bools, take_letter(bools, flush(st), s[i]), s, i + 1)
    }
}

/// A token `--name`, `--name=value`, outside the terminator's reach.
pub open spec fn long_step(bools: Set<Seq<char>>, st: ScanState, s: Seq<char>) -> ScanState {
    let st = flush(st);
    let k = s.subrange(2, s.len() as int);
    let e = find_eq(k, 0);
    if e >= 0 {
        ScanState { opts: add_value(st.opts, k.subrange(0, e), k.subrange(e + 1, k.len() as int)), ..st }
    } else if bools.contains(k) {
        ScanState { opts: add_key(st.opts, k), ..st }
    } else {
        ScanState { key: Some(k), ..st }
    }
}

/// A token of a single dash and at least one more character, outside the terminator's
/// reach.
pub open spec fn short_step(bools: Set<Seq<char>>, st: ScanState, s: Seq<char>) -> ScanState {
    if st.key is Some && is_digit(s[1]) {
        with_value(st, st.key->0, s)
    } else {
        let st = flush(st);
        let e = find_eq(s, 0);
        if e >= 0 {
            ScanState { opts: add_value(st.opts, s.subrange(1, e), s.subrange(e + 1, s.len() as int)), ..st }
        } else {
            cluster(bools, st, s, 1)
        }
    }
}

/// A token without a leading dash.
pub open spec fn is_plain(s: Seq<char>) -> bool {
    s.len() == 0 || s[0] != '-'
}

/// Whether `s` starts with two dashes.
pub open spec fn is_long(s: Seq<char>) -> bool {
    s.len() >= 2 && s[0] == '-' && s[1] == '-'
}

/// One token.
pub open spec fn step(bools: Set<Seq<char>>, st: ScanState, s: Seq<char>) -> ScanState {
    if st.dashdash {
        ScanState { args: st.args.push(s), ..st }
    } else if s == seq!['-', '-'] {
        ScanState { dashdash: true, ..st }
    } else if s == seq!['-'] {
        ScanState { args: st.args.push(s), ..st }
    } else if is_long(s) {
        long_step(bools, st, s)
    } else if !is_plain(s) {
        short_step(bools, st, s)
    } else {
        match st.key {
            Some(k) => with_value(st, k, s),
            None => ScanState { args: st.args.push(s), ..st },
        }
    }
}

/// The state after the tokens `toks`, left to right.
pub open spec fn scan(bools: Set<Seq<char>>, toks: Seq<Seq<char>>) -> ScanState
    decreases toks.len(),
{
    if toks.len() == 0 {
        initial()
    } else {
        step(bools, scan(bools, toks.drop_last()), toks.last())
    }
}

/// What the tokens `toks` yield: the positional arguments and the options, once a still
/// pending option has been resolved at the end.
pub open spec fn parsed(bools: Set<Seq<char>>, toks: Seq<Seq<char>>) -> ScanState {
    flush(scan(bools, toks))
}

} // verus!
