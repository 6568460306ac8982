//! The scanner: turns argument strings into positional arguments and options.

use vstd::prelude::*;
use vstd::string::StrSliceExecFns;
use crate::model::{
    ScanState, strs, alphabetic, is_digit, find_eq, flush, with_value, take_letter,
    last_letter, cluster, long_step, short_step, is_long, step, scan, parsed,
    initial,
};
use crate::options::{OptionMap, set_bool};

verus! {

/// Relies on char::is_alphabetic: whether the character has Unicode's Alphabetic
/// property, which depends on the character alone.
#[verifier::external_body]
fn is_alphabetic(c: char) -> (r: bool)
    ensures
        r == alphabetic(c),
{
    c.is_alphabetic()
}

/// Whether `c` is an ASCII digit.
fn is_num(c: char) -> (r: bool)
    ensures
        r == is_digit(c),
{
    '0' <= c && c <= '9'
}

/// Whether `c` is no letter, and so cannot continue a cluster of short options.
fn short_break(c: char) -> (r: bool)
    ensures
        r == !alphabetic(c),
{
    !is_alphabetic(c)
}

/// The characters of `s`.
fn chars_of(s: &String) -> (r: Vec<char>)
    ensures
        r@ == s@,
{
    let n = s.as_str().unicode_len();
    let mut r: Vec<char> = Vec::new();
    let mut i: usize = 0;
    while i < n
        invariant
            n == s@.len(),
            i <= n,
            r@ == s@.subrange(0, i as int),
        decreases n - i,
    {
        r.push(s.as_str().get_char(i));
        i = i + 1;
        assert(r@ =~= s@.subrange(0, i as int));
    }
    assert(r@ =~= s@);
    r
}

/// The characters of `s` from index `from` up to `to`.
fn substring(s: &String, from: usize, to: usize) -> (r: String)
    requires
        from <= to <= s@.len(),
    ensures
        r@ == s@.subrange(from as int, to as int),
{
    s.as_str().substring_char(from, to).to_owned()
}

/// The index of the first `=` in `cs` at or after `start`.
fn find_eq_from(cs: &Vec<char>, start: usize) -> (r: Option<usize>)
    ensures
        match r {
            Some(e) => start <= e < cs@.len() && cs@[e as int] == '=' && e == find_eq(cs@, start as int),
            None => find_eq(cs@, start as int) == -1,
        },
{
    let mut i: usize = start;
    while i < cs.len()
        invariant
            start <= i,
            find_eq(cs@, i as int) == find_eq(cs@, start as int),
        decreases cs@.len() - i,
    {
        if cs[i] == '=' {
            return Some(i);
        }
        i = i + 1;
    }
    None
}

/// A scanner configured with the option names that never take the next token as a value.
pub struct ArgMap {
    /// The option names declared boolean.
    pub boolean: Vec<String>,
}

impl ArgMap {
    /// The option names declared boolean.
    pub open spec fn bool_names(&self) -> Set<Seq<char>> {
        strs(self.boolean@).to_set()
    }

    /// A scanner with no boolean options.
    pub fn new() -> (r: ArgMap)
        ensures
            r.bool_names() == Set::<Seq<char>>::empty(),
    {
        let r = ArgMap { boolean: Vec::new() };
        assert(r.bool_names() =~= Set::<Seq<char>>::empty());
        r
    }

    /// Whether `k` is declared boolean.
    fn is_boolean(&self, k: &String) -> (r: bool)
        ensures
            r == self.bool_names().contains(k@),
    {
        let mut i: usize = 0;
        while i < self.boolean.len()
            invariant
                i <= self.boolean@.len(),
                forall|j: int| 0 <= j < i ==> self.boolean@[j]@ != k@,
            decreases self.boolean@.len() - i,
        {
            if self.boolean[i] == *k {
                assert(strs(self.boolean@)[i as int] == k@);
                return true;
            }
            i = i + 1;
        }
        assert(!strs(self.boolean@).contains(k@));
        false
    }

    /// Declares `key` boolean: where it stands as an option, the token after it is never
    /// its value.
    pub fn boolean(self, key: &str) -> (r: ArgMap)
        ensures
            r.bool_names() == self.bool_names().insert(key@),
    {
        let mut s = self;
        let k = key.to_owned();
        if !s.is_boolean(&k) {
            s.boolean.push(k);
            assert(strs(s.boolean@) =~= strs(self.boolean@).push(key@));
            proof {
                strs(self.boolean@).lemma_push_to_set_commute(key@);
            }
            assert(s.bool_names() =~= self.bool_names().insert(key@));
        } else {
            assert(s.bool_names() =~= self.bool_names().insert(key@));
        }
        s
    }

    /// Declares each of `keys` boolean.
    pub fn booleans(self, keys: &[&str]) -> (r: ArgMap)
        ensures
            r.bool_names() == self.bool_names() + keys@.map_values(|k: &str| k@).to_set(),
    {
        let mut s = self;
        let mut i: usize = 0;
        while i < keys.len()
            invariant
                i <= keys@.len(),
                s.bool_names() == self.bool_names() + keys@.subrange(0, i as int).map_values(
                    |k: &str| k@,
                ).to_set(),
            decreases keys@.len() - i,
        {
            s = s.boolean(keys[i]);
            proof {
                let prev = keys@.subrange(0, i as int).map_values(|k: &str| k@);
                assert(keys@.subrange(0, i + 1).map_values(|k: &str| k@) =~= prev.push(keys@[i as int]@));
                prev.lemma_push_to_set_commute(keys@[i as int]@);
            }
            i = i + 1;
            assert(s.bool_names() =~= self.bool_names() + keys@.subrange(0, i as int).map_values(
                |k: &str| k@,
            ).to_set());
        }
        assert(keys@.subrange(0, i as int) =~= keys@);
        s
    }
}

/// The state of one scan.
struct Scanner {
    args: Vec<String>,
    opts: OptionMap,
    key: Option<String>,
    dashdash: bool,
}

impl View for Scanner {
    type V = ScanState;

    closed spec fn view(&self) -> ScanState {
        ScanState {
            args: strs(self.args@),
            opts: self.opts@,
            key: match self.key {
                Some(k) => Some(k@),
                None => None,
            },
            dashdash: self.dashdash,
        }
    }
}

impl Scanner {
    /// Resolves the pending option, if any, as present without a value.
    fn flush(&mut self)
        requires
            old(self).opts.wf(),
        ensures
            final(self).opts.wf(),
            final(self)@ == flush(old(self)@),
    {
        if let Some(k) = self.key.take() {
            set_bool(&mut self.opts, &k);
        }
    }

    /// Gives the pending option the value `v`.
    fn attach(&mut self, v: String)
        requires
            old(self).opts.wf(),
            old(self).key is Some,
        ensures
            final(self).opts.wf(),
            final(self)@ == with_value(old(self)@, old(self)@.key->0, v@),
    {
        if let Some(k) = self.key.take() {
            crate::options::set(&mut self.opts, &k, v);
        }
    }

    /// A short option letter `k`, read while no option is pending.
    fn take_letter(&mut self, am: &ArgMap, k: String)
        requires
            old(self).opts.wf(),
            k@.len() == 1,
        ensures
            final(self).opts.wf(),
            final(self)@ == take_letter(am.bool_names(), old(self)@, k@[0]),
    {
        assert(seq![k@[0]] =~= k@);
        if am.is_boolean(&k) {
            set_bool(&mut self.opts, &k);
        } else {
            self.key = Some(k);
        }
    }

    /// The last letter of the cluster `s`, whose characters are `cs`.
    fn last_letter(&mut self, am: &ArgMap, s: &String, cs: &Vec<char>)
        requires
            old(self).opts.wf(),
            cs@ == s@,
            s@.len() >= 1,
        ensures
            final(self).opts.wf(),
            final(self)@ == last_letter(am.bool_names(), old(self)@, s@),
    {
        let n = cs.len();
        let c = cs[n - 1];
        let k = substring(s, n - 1, n);
        assert(k@ =~= seq![c]);
        if self.key.is_some() && !am.is_boolean(&k) && (is_num(c) || short_break(c)) {
            self.attach(k);
        } else {
            self.flush();
            self.take_letter(am, k);
        }
    }

    /// The letters of the cluster `s` after its dash.
    fn cluster(&mut self, am: &ArgMap, s: &String, cs: &Vec<char>)
        requires
            old(self).opts.wf(),
            cs@ == s@,
            s@.len() >= 2,
        ensures
            final(self).opts.wf(),
            final(self)@ == cluster(am.bool_names(), old(self)@, s@, 1),
    {
        let ghost target = cluster(am.bool_names(), self@, s@, 1);
        let n = cs.len();
        let mut i: usize = 1;
        while i < n - 1
            invariant
                self.opts.wf(),
                cs@ == s@,
                n == s@.len(),
                n >= 2,
                1 <= i <= n - 1,
                cluster(am.bool_names(), self@, s@, i as int) == target,
                target == cluster(am.bool_names(), old(self)@, s@, 1),
            decreases n - 1 - i,
        {
            let c = cs[i];
            if self.key.is_some() && (is_num(c) || short_break(c)) {
                let v = substring(s, i, n);
                self.attach(v);
                return;
            }
            self.flush();
            let k = substring(s, i, i + 1);
            assert(k@ =~= seq![c]);
            self.take_letter(am, k);
            i = i + 1;
        }
        self.last_letter(am, s, cs);
    }

    /// A token that starts with two dashes and is not `--` itself.
    fn long_step(&mut self, am: &ArgMap, s: &String, cs: &Vec<char>)
        requires
            old(self).opts.wf(),
            cs@ == s@,
            is_long(s@),
        ensures
            final(self).opts.wf(),
            final(self)@ == long_step(am.bool_names(), old(self)@, s@),
    {
        self.flush();
        let k = substring(s, 2, cs.len());
        let kcs = chars_of(&k);
        match find_eq_from(&kcs, 0) {
            Some(e) => {
                let name = substring(&k, 0, e);
                let v = substring(&k, e + 1, kcs.len());
                crate::options::set(&mut self.opts, &name, v);
            },
            None => {
                if am.is_boolean(&k) {
                    set_bool(&mut self.opts, &k);
                } else {
                    self.key = Some(k);
                }
            },
        }
    }

    /// A token of one dash and at least one more character, not a second dash.
    fn short_step(&mut self, am: &ArgMap, s: String, cs: &Vec<char>)
        requires
            old(self).opts.wf(),
            cs@ == s@,
            s@.len() >= 2,
            s@[0] == '-',
        ensures
            final(self).opts.wf(),
            final(self)@ == short_step(am.bool_names(), old(self)@, s@),
    {
        if self.key.is_some() && is_num(cs[1]) {
            self.attach(s);
            return;
        }
        self.flush();
        let n = cs.len();
        match find_eq_from(cs, 0) {
            Some(e) => {
                let name = substring(&s, 1, e);
                let v = substring(&s, e + 1, n);
                crate::options::set(&mut self.opts, &name, v);
            },
            None => {
                self.cluster(am, &s, cs);
            },
        }
    }

    /// One token.
    fn step(&mut self, am: &ArgMap, s: String)
        requires
            old(self).opts.wf(),
        ensures
            final(self).opts.wf(),
            final(self)@ == step(am.bool_names(), old(self)@, s@),
    {
        if self.dashdash {
            self.args.push(s);
            assert(strs(self.args@) =~= old(self)@.args.push(s@));
            return;
        }
        let cs = chars_of(&s);
        let n = cs.len();
        if n == 2 && cs[0] == '-' && cs[1] == '-' {
            assert(s@ =~= seq!['-', '-']);
            self.dashdash = true;
        } else if n == 1 && cs[0] == '-' {
            assert(s@ =~= seq!['-']);
            self.args.push(s);
            assert(strs(self.args@) =~= old(self)@.args.push(s@));
        } else if n >= 2 && cs[0] == '-' && cs[1] == '-' {
            self.long_step(am, &s, &cs);
        } else if n >= 1 && cs[0] == '-' {
            self.short_step(am, s, &cs);
        } else if self.key.is_some() {
            self.attach(s);
        } else {
            self.args.push(s);
            assert(strs(self.args@) =~= old(self)@.args.push(s@));
        }
    }
}

impl ArgMap {
    /// Scans `input` left to right. Returns the positional arguments in order, and each
    /// option seen with the values attached to it in order.
    pub fn parse(&self, input: &[String]) -> (r: (Vec<String>, OptionMap))
        ensures
            r.1.wf(),
            strs(r.0@) == parsed(self.bool_names(), strs(input@)).args,
            r.1@ == parsed(self.bool_names(), strs(input@)).opts,
    {
        let ghost toks = strs(input@);
        let mut sc = Scanner { args: Vec::new(), opts: OptionMap::new(), key: None, dashdash: false };
        assert(strs(sc.args@) =~= Seq::empty());
        assert(sc@ == initial());
        let mut i: usize = 0;
        while i < input.len()
            invariant
                sc.opts.wf(),
                i <= input@.len(),
                toks == strs(input@),
                sc@ == scan(self.bool_names(), toks.take(i as int)),
            decreases input@.len() - i,
        {
            assert(toks.take(i + 1).drop_last() =~= toks.take(i as int));
            sc.step(self, input[i].clone());
            i = i + 1;
        }
        assert(toks.take(i as int) =~= toks);
        sc.flush();
        (sc.args, sc.opts)
    }
}

/// A scanner with no boolean options.
pub fn new() -> (r: ArgMap)
    ensures
        r.bool_names() == Set::<Seq<char>>::empty(),
{
    ArgMap::new()
}

/// Scans `input` with no boolean options.
pub fn parse(input: &[String]) -> (r: (Vec<String>, OptionMap))
    ensures
        r.1.wf(),
        strs(r.0@) == parsed(Set::empty(), strs(input@)).args,
        r.1@ == parsed(Set::empty(), strs(input@)).opts,
{
    ArgMap::new().parse(input)
}

} // verus!
