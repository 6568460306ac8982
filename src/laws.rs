//! Properties of a scan that hold for every input.

use vstd::prelude::*;
use crate::model::{
    ScanState, OptValues, alphabetic, is_digit, breaks, find_eq, flush, take_letter, cluster,
    add_key, add_value, step, scan, parsed, is_plain,
};

verus! {

/// Whether the token at index `i` is taken as a positional argument.
pub open spec fn positional_at(bools: Set<Seq<char>>, toks: Seq<Seq<char>>, i: int) -> bool {
    scan(bools, toks.take(i + 1)).args == scan(bools, toks.take(i)).args.push(toks[i])
}

/// The tokens taken as positional arguments, in input order.
pub open spec fn positionals(bools: Set<Seq<char>>, toks: Seq<Seq<char>>) -> Seq<Seq<char>>
    decreases toks.len(),
{
    if toks.len() == 0 {
        Seq::empty()
    } else {
        let p = positionals(bools, toks.drop_last());
        if positional_at(bools, toks, toks.len() - 1) {
            p.push(toks.last())
        } else {
            p
        }
    }
}

/// No token before index `i` is the terminator.
pub open spec fn no_terminator_before(toks: Seq<Seq<char>>, i: int) -> bool {
    forall|j: int| 0 <= j < i ==> toks[j] != seq!['-', '-']
}

/// The state after the token at `i` is the state before it, stepped by that token.
proof fn lemma_scan_take(bools: Set<Seq<char>>, toks: Seq<Seq<char>>, i: int)
    requires
        0 <= i < toks.len(),
    ensures
        scan(bools, toks.take(i + 1)) == step(bools, scan(bools, toks.take(i)), toks[i]),
{
    assert(toks.take(i + 1).drop_last() =~= toks.take(i));
}

/// Letters of a cluster never add positional arguments.
proof fn lemma_cluster_args(bools: Set<Seq<char>>, st: ScanState, s: Seq<char>, i: int)
    ensures
        cluster(bools, st, s, i).args == st.args,
        cluster(bools, st, s, i).dashdash == st.dashdash,
    decreases s.len() - i,
{
    if i < s.len() - 1 && !(st.key is Some && breaks(s[i])) {
        lemma_cluster_args(bools, take_letter(bools, flush(st), s[i]), s, i + 1);
    }
}

/// A token adds itself to the positional arguments or leaves them as they are.
proof fn lemma_step_args(bools: Set<Seq<char>>, st: ScanState, s: Seq<char>)
    ensures
        step(bools, st, s).args == st.args || step(bools, st, s).args == st.args.push(s),
{
    lemma_cluster_args(bools, flush(st), s, 1);
}

/// The positional arguments are exactly the tokens taken as positional, in the order in
/// which they came, none dropped, reordered or repeated.
pub proof fn lemma_positional_order(bools: Set<Seq<char>>, toks: Seq<Seq<char>>)
    ensures
        parsed(bools, toks).args == positionals(bools, toks),
        scan(bools, toks).args == positionals(bools, toks),
    decreases toks.len(),
{
    if toks.len() > 0 {
        let n = toks.len() - 1;
        let prev = toks.drop_last();
        lemma_positional_order(bools, prev);
        assert(toks.take(n) =~= prev);
        assert(toks.take(n + 1) =~= toks);
        lemma_step_args(bools, scan(bools, prev), toks.last());
    }
}

/// Once the state has seen the terminator, tokens only extend the positional arguments.
proof fn lemma_after_terminator(bools: Set<Seq<char>>, toks: Seq<Seq<char>>, i: int, j: int)
    requires
        0 <= i < j <= toks.len(),
        scan(bools, toks.take(i + 1)).dashdash,
    ensures
        scan(bools, toks.take(j)) == (ScanState {
            args: scan(bools, toks.take(i + 1)).args + toks.subrange(i + 1, j),
            ..scan(bools, toks.take(i + 1))
        }),
    decreases j - i,
{
    let base = scan(bools, toks.take(i + 1));
    if j == i + 1 {
        assert(base.args + toks.subrange(i + 1, j) =~= base.args);
    } else {
        lemma_after_terminator(bools, toks, i, j - 1);
        lemma_scan_take(bools, toks, j - 1);
        assert(base.args + toks.subrange(i + 1, j) =~= (base.args + toks.subrange(i + 1, j - 1)).push(
            toks[j - 1],
        ));
    }
}

/// After a terminator `--`, every later token is positional, whatever its shape, and the
/// options are those seen before it.
pub proof fn lemma_terminator(bools: Set<Seq<char>>, toks: Seq<Seq<char>>, i: int)
    requires
        0 <= i < toks.len(),
        toks[i] == seq!['-', '-'],
    ensures
        parsed(bools, toks).args == scan(bools, toks.take(i + 1)).args + toks.subrange(
            i + 1,
            toks.len() as int,
        ),
        parsed(bools, toks).opts == parsed(bools, toks.take(i + 1)).opts,
        forall|j: int| i < j < toks.len() ==> positional_at(bools, toks, j),
{
    lemma_scan_take(bools, toks, i);
    lemma_after_terminator(bools, toks, i, toks.len() as int);
    assert(toks.take(toks.len() as int) =~= toks);
    assert forall|j: int| i < j < toks.len() implies positional_at(bools, toks, j) by {
        lemma_after_terminator(bools, toks, i, j);
        lemma_after_terminator(bools, toks, i, j + 1);
        let base = scan(bools, toks.take(i + 1));
        assert(base.args + toks.subrange(i + 1, j + 1) =~= (base.args + toks.subrange(i + 1, j)).push(
            toks[j],
        ));
    }
}

/// A lone `-` is always positional, and leaves the options and any pending option as they
/// are.
pub proof fn lemma_lone_dash(bools: Set<Seq<char>>, toks: Seq<Seq<char>>, i: int)
    requires
        0 <= i < toks.len(),
        toks[i] == seq!['-'],
    ensures
        positional_at(bools, toks, i),
        scan(bools, toks.take(i + 1)).opts == scan(bools, toks.take(i)).opts,
        scan(bools, toks.take(i + 1)).key == scan(bools, toks.take(i)).key,
{
    lemma_scan_take(bools, toks, i);
    assert(seq!['-'] != seq!['-', '-']);
}

/// With no terminator before index `i`, the state before `i` has not seen one.
proof fn lemma_no_terminator(bools: Set<Seq<char>>, toks: Seq<Seq<char>>, i: int)
    requires
        0 <= i <= toks.len(),
        no_terminator_before(toks, i),
    ensures
        !scan(bools, toks.take(i)).dashdash,
    decreases i,
{
    if i > 0 {
        lemma_no_terminator(bools, toks, i - 1);
        lemma_scan_take(bools, toks, i - 1);
        let st = scan(bools, toks.take(i - 1));
        let s = toks[i - 1];
        lemma_cluster_args(bools, flush(st), s, 1);
    }
}

/// Whether `s` holds an `=`.
pub open spec fn has_eq(s: Seq<char>) -> bool {
    exists|j: int| 0 <= j < s.len() && s[j] == '='
}

/// The first `=` at or after `i` is at `e` where none stands in between.
proof fn lemma_find_eq_at(s: Seq<char>, i: int, e: int)
    requires
        0 <= i <= e < s.len(),
        s[e] == '=',
        forall|j: int| i <= j < e ==> s[j] != '=',
    ensures
        find_eq(s, i) == e,
    decreases e - i,
{
    if i < e {
        lemma_find_eq_at(s, i + 1, e);
    }
}

/// There is no `=` at or after `i` where none stands there.
proof fn lemma_find_eq_none(s: Seq<char>, i: int)
    requires
        0 <= i,
        forall|j: int| i <= j < s.len() ==> s[j] != '=',
    ensures
        find_eq(s, i) == -1,
    decreases s.len() - i,
{
    if i < s.len() {
        lemma_find_eq_none(s, i + 1);
    }
}

/// A long option with an inline value, `--name=value`, attaches `value` to `name` and
/// leaves nothing pending; an option pending before it is resolved without a value.
pub proof fn lemma_long_inline_value(
    bools: Set<Seq<char>>,
    toks: Seq<Seq<char>>,
    i: int,
    name: Seq<char>,
    value: Seq<char>,
)
    requires
        0 <= i < toks.len(),
        no_terminator_before(toks, i),
        toks[i] == seq!['-', '-'] + name + seq!['='] + value,
        !has_eq(name),
    ensures
        scan(bools, toks.take(i + 1)).opts == add_value(
            flush(scan(bools, toks.take(i))).opts,
            name,
            value,
        ),
        scan(bools, toks.take(i + 1)).opts.contains_key(name),
        scan(bools, toks.take(i + 1)).opts[name].last() == value,
        scan(bools, toks.take(i + 1)).key is None,
        scan(bools, toks.take(i + 1)).args == scan(bools, toks.take(i)).args,
{
    lemma_scan_take(bools, toks, i);
    lemma_no_terminator(bools, toks, i);
    let s = toks[i];
    let k = s.subrange(2, s.len() as int);
    assert(k =~= name + seq!['='] + value);
    assert(s.len() >= 3);
    assert(s != seq!['-', '-']);
    assert(s != seq!['-']);
    lemma_find_eq_at(k, 0, name.len() as int);
    assert(k.subrange(0, name.len() as int) =~= name);
    assert(k.subrange(name.len() as int + 1, k.len() as int) =~= value);
}

/// How the token `s` opens option `k` that then waits for a value: `--k` with `k`
/// undeclared, no `=` in it, or `-c` with `c` an undeclared letter and `k` that letter.
pub open spec fn opens(bools: Set<Seq<char>>, s: Seq<char>, k: Seq<char>) -> bool {
    &&& !bools.contains(k)
    &&& {
        ||| (s == seq!['-', '-'] + k && k.len() > 0 && !has_eq(k))
        ||| (k.len() == 1 && s == seq!['-', k[0]] && is_letter(k[0]))
    }
}

/// A character read as an option letter: an alphabetic one. No digit, `-` or `=` is
/// alphabetic; they are excluded here because the prover does not see into the property.
pub open spec fn is_letter(c: char) -> bool {
    alphabetic(c) && !is_digit(c) && c != '-' && c != '='
}

/// A token that opens an option leaves it pending, and resolves an option pending before
/// it without a value.
proof fn lemma_opens(bools: Set<Seq<char>>, toks: Seq<Seq<char>>, i: int, k: Seq<char>)
    requires
        0 <= i < toks.len(),
        no_terminator_before(toks, i),
        opens(bools, toks[i], k),
    ensures
        scan(bools, toks.take(i + 1)) == (ScanState {
            key: Some(k),
            ..flush(scan(bools, toks.take(i)))
        }),
{
    lemma_scan_take(bools, toks, i);
    lemma_no_terminator(bools, toks, i);
    let s = toks[i];
    let st = scan(bools, toks.take(i));
    if s == seq!['-', '-'] + k && k.len() > 0 && !has_eq(k) {
        assert(s.len() >= 3);
        assert(s != seq!['-', '-']);
        assert(s != seq!['-']);
        assert(s.subrange(2, s.len() as int) =~= k);
        lemma_find_eq_none(k, 0);
    } else {
        assert(s.len() == 2);
        assert(s != seq!['-', '-']);
        assert(s != seq!['-']);
        assert(s[1] == k[0]);
        lemma_find_eq_none(s, 0);
        assert(seq![s[1]] =~= k);
    }
}

/// A long option declared boolean, `--flag`, is present with no value at once and leaves
/// nothing pending, so that the token after it is scanned afresh: a plain one is
/// positional.
pub proof fn lemma_boolean_long(bools: Set<Seq<char>>, toks: Seq<Seq<char>>, i: int, flag: Seq<char>)
    requires
        0 <= i < toks.len(),
        no_terminator_before(toks, i),
        toks[i] == seq!['-', '-'] + flag,
        flag.len() > 0,
        !has_eq(flag),
        bools.contains(flag),
    ensures
        scan(bools, toks.take(i + 1)).opts == add_key(flush(scan(bools, toks.take(i))).opts, flag),
        scan(bools, toks.take(i + 1)).opts.contains_key(flag),
        !flush(scan(bools, toks.take(i))).opts.contains_key(flag) ==> scan(
            bools,
            toks.take(i + 1),
        ).opts[flag] == Seq::<Seq<char>>::empty(),
        scan(bools, toks.take(i + 1)).key is None,
        scan(bools, toks.take(i + 1)).args == scan(bools, toks.take(i)).args,
        i + 1 < toks.len() && is_plain(toks[i + 1]) ==> positional_at(bools, toks, i + 1),
{
    lemma_scan_take(bools, toks, i);
    lemma_no_terminator(bools, toks, i);
    let s = toks[i];
    assert(s.len() >= 3);
    assert(s != seq!['-', '-']);
    assert(s != seq!['-']);
    assert(s.subrange(2, s.len() as int) =~= flag);
    lemma_find_eq_none(flag, 0);
    if i + 1 < toks.len() && is_plain(toks[i + 1]) {
        lemma_scan_take(bools, toks, i + 1);
        assert(i + 1 + 1 == i + 2);
    }
}

/// An option left pending by `--flag` (undeclared) or `-c` takes a following plain token
/// `x` as its value: `x` is attached to it and is not positional.
pub proof fn lemma_pending_takes_plain(bools: Set<Seq<char>>, toks: Seq<Seq<char>>, i: int, k: Seq<char>)
    requires
        0 <= i,
        i + 1 < toks.len(),
        no_terminator_before(toks, i),
        opens(bools, toks[i], k),
        is_plain(toks[i + 1]),
    ensures
        scan(bools, toks.take(i + 2)).opts == add_value(
            flush(scan(bools, toks.take(i))).opts,
            k,
            toks[i + 1],
        ),
        scan(bools, toks.take(i + 2)).opts[k].last() == toks[i + 1],
        scan(bools, toks.take(i + 2)).key is None,
        scan(bools, toks.take(i + 2)).args == scan(bools, toks.take(i)).args,
        !positional_at(bools, toks, i + 1),
{
    lemma_opens(bools, toks, i, k);
    lemma_no_terminator(bools, toks, i);
    lemma_scan_take(bools, toks, i + 1);
    assert(i + 1 + 1 == i + 2);
    assert(scan(bools, toks.take(i + 1)).args.push(toks[i + 1]).len() != scan(bools, toks.take(i + 1)).args.len());
}

/// A token of a dash and a digit after an option left pending by `--flag` (undeclared)
/// or `-c` is that option's value, whole, dash included: it opens no option of its own.
pub proof fn lemma_digit_lead_value(bools: Set<Seq<char>>, toks: Seq<Seq<char>>, i: int, k: Seq<char>)
    requires
        0 <= i,
        i + 1 < toks.len(),
        no_terminator_before(toks, i),
        opens(bools, toks[i], k),
        toks[i + 1].len() >= 2,
        toks[i + 1][0] == '-',
        is_digit(toks[i + 1][1]),
    ensures
        scan(bools, toks.take(i + 2)).opts == add_value(
            flush(scan(bools, toks.take(i))).opts,
            k,
            toks[i + 1],
        ),
        scan(bools, toks.take(i + 2)).opts[k].last() == toks[i + 1],
        scan(bools, toks.take(i + 2)).key is None,
        scan(bools, toks.take(i + 2)).args == scan(bools, toks.take(i)).args,
{
    lemma_opens(bools, toks, i, k);
    lemma_no_terminator(bools, toks, i);
    lemma_scan_take(bools, toks, i + 1);
    assert(i + 1 + 1 == i + 2);
    let s = toks[i + 1];
    assert(s != seq!['-', '-']);
    assert(s != seq!['-']);
}

/// Each of the letters `cs`, in order, made present without a value.
pub open spec fn add_letters(m: OptValues, cs: Seq<char>) -> OptValues
    decreases cs.len(),
{
    if cs.len() == 0 {
        m
    } else {
        add_letters(add_key(m, seq![cs[0]]), cs.drop_first())
    }
}

/// Making letters present adds each of them, keeps existing entries as they are, and gives
/// each new one no value.
proof fn lemma_add_letters(m: OptValues, cs: Seq<char>, k: Seq<char>)
    ensures
        forall|j: int| 0 <= j < cs.len() ==> #[trigger] add_letters(m, cs).contains_key(seq![cs[j]]),
        m.contains_key(k) ==> add_letters(m, cs).contains_key(k) && add_letters(m, cs)[k] == m[k],
        !m.contains_key(k) && add_letters(m, cs).contains_key(k) ==> add_letters(m, cs)[k]
            == Seq::<Seq<char>>::empty(),
    decreases cs.len(),
{
    if cs.len() > 0 {
        let m2 = add_key(m, seq![cs[0]]);
        let rest = cs.drop_first();
        lemma_add_letters(m2, rest, k);
        lemma_add_letters(m2, rest, seq![cs[0]]);
        assert forall|j: int| 0 <= j < cs.len() implies #[trigger] add_letters(m, cs).contains_key(
            seq![cs[j]],
        ) by {
            if j > 0 {
                assert(rest[j - 1] == cs[j]);
            }
        }
    }
}

/// Within a cluster, letters that never break it each become present in turn, and the
/// last one is left pending.
proof fn lemma_cluster_letters(bools: Set<Seq<char>>, st: ScanState, s: Seq<char>, i: int)
    requires
        1 <= i <= s.len() - 1,
        forall|j: int| i <= j < s.len() ==> is_letter(#[trigger] s[j]) && !bools.contains(seq![s[j]]),
    ensures
        cluster(bools, st, s, i) == (ScanState {
            opts: add_letters(flush(st).opts, s.subrange(i, s.len() - 1)),
            key: Some(seq![s[s.len() - 1]]),
            ..st
        }),
    decreases s.len() - i,
{
    if i < s.len() - 1 {
        let st2 = take_letter(bools, flush(st), s[i]);
        lemma_cluster_letters(bools, st2, s, i + 1);
        assert(s.subrange(i, s.len() - 1).drop_first() =~= s.subrange(i + 1, s.len() - 1));
    } else {
        assert(s.subrange(i, s.len() - 1) =~= Seq::<char>::empty());
        assert(is_letter(s[s.len() - 1]));
    }
}

/// A cluster of letters `-abc`, none declared boolean, makes each letter but the last
/// present without a value and leaves the last pending: a plain token after it becomes
/// that letter's value, and at the end of input it is present without one.
pub proof fn lemma_short_cluster(
    bools: Set<Seq<char>>,
    toks: Seq<Seq<char>>,
    i: int,
    letters: Seq<char>,
)
    requires
        0 <= i < toks.len(),
        no_terminator_before(toks, i),
        toks[i] == seq!['-'] + letters,
        letters.len() >= 1,
        forall|j: int|
            0 <= j < letters.len() ==> is_letter(#[trigger] letters[j]) && !bools.contains(
                seq![letters[j]],
            ),
    ensures
        scan(bools, toks.take(i + 1)).opts == add_letters(
            flush(scan(bools, toks.take(i))).opts,
            letters.drop_last(),
        ),
        scan(bools, toks.take(i + 1)).key == Some(seq![letters.last()]),
        scan(bools, toks.take(i + 1)).args == scan(bools, toks.take(i)).args,
        forall|j: int|
            0 <= j < letters.len() - 1 ==> {
                &&& scan(bools, toks.take(i + 1)).opts.contains_key(seq![#[trigger] letters[j]])
                &&& !flush(scan(bools, toks.take(i))).opts.contains_key(seq![letters[j]])
                    ==> scan(bools, toks.take(i + 1)).opts[seq![letters[j]]]
                    == Seq::<Seq<char>>::empty()
            },
        i + 1 < toks.len() && is_plain(toks[i + 1]) ==> scan(bools, toks.take(i + 2)).opts
            == add_value(scan(bools, toks.take(i + 1)).opts, seq![letters.last()], toks[i + 1])
            && scan(bools, toks.take(i + 2)).args == scan(bools, toks.take(i)).args,
        i + 1 == toks.len() ==> parsed(bools, toks).opts == add_key(
            scan(bools, toks.take(i + 1)).opts,
            seq![letters.last()],
        ),
{
    lemma_scan_take(bools, toks, i);
    lemma_no_terminator(bools, toks, i);
    let s = toks[i];
    let st = scan(bools, toks.take(i));
    assert(s.len() >= 2);
    assert(s[1] == letters[0]);
    assert(is_letter(letters[0]));
    assert(s != seq!['-', '-']);
    assert(s != seq!['-']);
    assert forall|j: int| 1 <= j < s.len() implies is_letter(#[trigger] s[j]) && !bools.contains(
        seq![s[j]],
    ) by {
        assert(s[j] == letters[j - 1]);
    }
    assert forall|j: int| 0 <= j < s.len() implies s[j] != '=' by {
        if j > 0 {
            assert(s[j] == letters[j - 1]);
        }
    }
    lemma_find_eq_none(s, 0);
    lemma_cluster_letters(bools, flush(st), s, 1);
    assert(s.subrange(1, s.len() - 1) =~= letters.drop_last());
    assert(s[s.len() - 1] == letters.last());
    let after = scan(bools, toks.take(i + 1));
    assert forall|j: int| 0 <= j < letters.len() - 1 implies {
        &&& after.opts.contains_key(seq![#[trigger] letters[j]])
        &&& !flush(st).opts.contains_key(seq![letters[j]]) ==> after.opts[seq![letters[j]]]
            == Seq::<Seq<char>>::empty()
    } by {
        lemma_add_letters(flush(st).opts, letters.drop_last(), seq![letters[j]]);
        assert(letters.drop_last()[j] == letters[j]);
    }
    if i + 1 < toks.len() && is_plain(toks[i + 1]) {
        lemma_scan_take(bools, toks, i + 1);
        assert(i + 1 + 1 == i + 2);
    }
    if i + 1 == toks.len() {
        assert(toks.take(i + 1) =~= toks);
    }
}

} // verus!
