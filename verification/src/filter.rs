//! Log filter specs of the form `level[,target=level]*` and longest-prefix
//! target matching.
//!
//! The first token is the default level for every target without an
//! override; later tokens are `target=level` pairs. Unknown levels fall back
//! to `Info`.

use vstd::prelude::*;
use crate::level::{self, Level, LevelFilter};
use crate::text;

verus! {

broadcast use vstd::string::group_string_axioms;

/// The filter that a level name denotes, ignoring ASCII case.
pub open spec fn level_filter_named(s: Seq<char>) -> Option<LevelFilter> {
    let l = text::to_ascii_lowercase(s);
    if l == seq!['o', 'f', 'f'] {
        Some(LevelFilter::Off)
    } else if l == seq!['e', 'r', 'r', 'o', 'r'] {
        Some(LevelFilter::Error)
    } else if l == seq!['w', 'a', 'r', 'n'] {
        Some(LevelFilter::Warn)
    } else if l == seq!['i', 'n', 'f', 'o'] {
        Some(LevelFilter::Info)
    } else if l == seq!['d', 'e', 'b', 'u', 'g'] {
        Some(LevelFilter::Debug)
    } else if l == seq!['t', 'r', 'a', 'c', 'e'] {
        Some(LevelFilter::Trace)
    } else {
        None
    }
}

/// The filter that a level token sets: its named filter, or `Info`.
pub open spec fn level_or_info(s: Seq<char>) -> LevelFilter {
    match level_filter_named(s) {
        Some(l) => l,
        None => LevelFilter::Info,
    }
}

/// A default level and the overrides in the order they were written.
pub type ParseState = (LevelFilter, Seq<(Seq<char>, LevelFilter)>);

/// The effect of the `i`-th comma-separated piece `raw` on the parse state.
pub open spec fn parse_piece(st: ParseState, i: int, raw: Seq<char>) -> ParseState {
    let tok = text::trim(raw);
    if tok.len() == 0 {
        st
    } else if text::has_char(tok, '=') {
        let k = text::first_index(tok, '=') as int;
        let target = text::trim(tok.take(k));
        let lvl = text::trim(tok.skip(k + 1));
        if target.len() == 0 || text::has_char(lvl, '=') {
            st
        } else {
            (st.0, st.1.push((target, level_or_info(lvl))))
        }
    } else if i == 0 {
        (level_or_info(tok), st.1)
    } else {
        st
    }
}

/// The parse state after the given pieces, starting from `Info` and no overrides.
pub open spec fn parse_pieces(pieces: Seq<Seq<char>>) -> ParseState
    decreases pieces.len(),
{
    if pieces.len() == 0 {
        (LevelFilter::Info, Seq::empty())
    } else {
        parse_piece(parse_pieces(pieces.drop_last()), pieces.len() - 1, pieces.last())
    }
}

/// The default level and the overrides, in spec order, that a filter spec denotes.
pub open spec fn parsed(spec: Seq<char>) -> ParseState {
    parse_pieces(text::split(spec, ','))
}

/// Sort key of a target: the length of its UTF-8 encoding, as `String::len` gives it.
pub open spec fn target_key(t: Seq<char>) -> nat {
    vstd::utf8::encode_utf8(t).len()
}

/// Where a stable sort by descending key places `x` among the already sorted `s`:
/// before the first entry with a strictly shorter target.
pub open spec fn insert_pos(s: Seq<(Seq<char>, LevelFilter)>, x: (Seq<char>, LevelFilter)) -> nat
    decreases s.len(),
{
    if s.len() == 0 || target_key(s[0].0) < target_key(x.0) {
        0
    } else {
        1 + insert_pos(s.drop_first(), x)
    }
}

/// `x` inserted into `s` at its stable position.
pub open spec fn insert_by_len(s: Seq<(Seq<char>, LevelFilter)>, x: (Seq<char>, LevelFilter)) -> Seq<
    (Seq<char>, LevelFilter),
> {
    s.insert(insert_pos(s, x) as int, x)
}

/// Stable sort by descending target length.
pub open spec fn sort_by_len_desc(s: Seq<(Seq<char>, LevelFilter)>) -> Seq<(Seq<char>, LevelFilter)>
    decreases s.len(),
{
    if s.len() == 0 {
        s
    } else {
        insert_by_len(sort_by_len_desc(s.drop_last()), s.last())
    }
}

/// Targets never get longer along the sequence.
pub open spec fn sorted_by_len_desc(s: Seq<(Seq<char>, LevelFilter)>) -> bool {
    forall|i: int, j: int| 0 <= i < j < s.len() ==> target_key(s[j].0) <= target_key(s[i].0)
}

/// `target` is `prefix` itself or lies below it: it starts with `prefix` followed by `::`.
pub open spec fn target_matches(target: Seq<char>, prefix: Seq<char>) -> bool {
    ||| target == prefix
    ||| {
        &&& target.len() >= prefix.len() + 2
        &&& target.take(prefix.len() as int) == prefix
        &&& target[prefix.len() as int] == ':'
        &&& target[prefix.len() as int + 1] == ':'
    }
}

/// The level of the first override that matches `target`, or `default`.
pub open spec fn effective_level(
    overrides: Seq<(Seq<char>, LevelFilter)>,
    default: LevelFilter,
    target: Seq<char>,
) -> LevelFilter
    decreases overrides.len(),
{
    if overrides.len() == 0 {
        default
    } else if target_matches(target, overrides[0].0) {
        overrides[0].1
    } else {
        effective_level(overrides.drop_first(), default, target)
    }
}

/// The largest of `default` and the override levels.
pub open spec fn max_filter(overrides: Seq<(Seq<char>, LevelFilter)>, default: LevelFilter) -> LevelFilter
    decreases overrides.len(),
{
    if overrides.len() == 0 {
        default
    } else {
        level::filter_max(max_filter(overrides.drop_last(), default), overrides.last().1)
    }
}

/// The overrides of a vector of `(target, level)` pairs, targets taken as characters.
pub open spec fn overrides_view(v: Seq<(String, LevelFilter)>) -> Seq<(Seq<char>, LevelFilter)> {
    v.map_values(|p: (String, LevelFilter)| (p.0@, p.1))
}

/// What one piece of a filter spec does.
pub enum PieceEffect {
    /// The piece changes nothing.
    Skip,
    /// The piece sets the default level.
    SetDefault(LevelFilter),
    /// The piece adds an override for a target.
    Override(String, LevelFilter),
}

/// The parse state after a piece with effect `e`.
pub open spec fn apply_effect(st: ParseState, e: PieceEffect) -> ParseState {
    match e {
        PieceEffect::Skip => st,
        PieceEffect::SetDefault(l) => (l, st.1),
        PieceEffect::Override(t, l) => (st.0, st.1.push((t@, l))),
    }
}

/// Parses a level name, ignoring ASCII case; `None` for anything else.
pub fn parse_level_filter(s: &str) -> (r: Option<LevelFilter>)
    ensures
        r == level_filter_named(s@),
{
    let v = text::chars_of(s);
    let off = ['o', 'f', 'f'];
    let error = ['e', 'r', 'r', 'o', 'r'];
    let warn = ['w', 'a', 'r', 'n'];
    let info = ['i', 'n', 'f', 'o'];
    let debug = ['d', 'e', 'b', 'u', 'g'];
    let trace = ['t', 'r', 'a', 'c', 'e'];
    assert(off@ =~= seq!['o', 'f', 'f']);
    assert(error@ =~= seq!['e', 'r', 'r', 'o', 'r']);
    assert(warn@ =~= seq!['w', 'a', 'r', 'n']);
    assert(info@ =~= seq!['i', 'n', 'f', 'o']);
    assert(debug@ =~= seq!['d', 'e', 'b', 'u', 'g']);
    assert(trace@ =~= seq!['t', 'r', 'a', 'c', 'e']);
    if text::lower_eq(&v, &off) {
        Some(LevelFilter::Off)
    } else if text::lower_eq(&v, &error) {
        Some(LevelFilter::Error)
    } else if text::lower_eq(&v, &warn) {
        Some(LevelFilter::Warn)
    } else if text::lower_eq(&v, &info) {
        Some(LevelFilter::Info)
    } else if text::lower_eq(&v, &debug) {
        Some(LevelFilter::Debug)
    } else if text::lower_eq(&v, &trace) {
        Some(LevelFilter::Trace)
    } else {
        None
    }
}

/// Whether `t` is `p` or starts with `p` followed by `::`.
fn matches_exec(t: &Vec<char>, p: &Vec<char>) -> (b: bool)
    ensures
        b == target_matches(t@, p@),
{
    let n = p.len();
    if t.len() < n {
        return false;
    }
    let mut i: usize = 0;
    while i < n
        invariant
            n == p.len(),
            n <= t.len(),
            0 <= i <= n,
            forall|j: int| 0 <= j < i ==> t@[j] == p@[j],
        decreases n - i,
    {
        if t[i] != p[i] {
            assert(t@.take(n as int)[i as int] != p@[i as int]);
            return false;
        }
        i = i + 1;
    }
    assert(t@.take(n as int) =~= p@);
    if t.len() == n {
        assert(t@ =~= p@);
        true
    } else {
        t.len() - n >= 2 && t[n] == ':' && t[n + 1] == ':'
    }
}

/// The effect of the piece `chars[lo..hi]`, the `idx`-th of the spec.
fn piece_effect(spec: &str, chars: &Vec<char>, lo: usize, hi: usize, idx: usize) -> (e: PieceEffect)
    requires
        lo <= hi <= chars.len(),
        chars@ == spec@,
    ensures
        forall|st: ParseState|
            #[trigger] parse_piece(st, idx as int, chars@.subrange(lo as int, hi as int))
                == apply_effect(st, e),
{
    let ghost raw = chars@.subrange(lo as int, hi as int);
    let (a, b) = text::trim_bounds(chars, lo, hi);
    let ghost tok = chars@.subrange(a as int, b as int);
    if a == b {
        return PieceEffect::Skip;
    }
    let k = text::find_char(chars, a, b, '=');
    if k < b {
        let (ta, tb) = text::trim_bounds(chars, a, k);
        let (la, lb) = text::trim_bounds(chars, k + 1, b);
        assert(tok.take(k - a) =~= chars@.subrange(a as int, k as int));
        assert(tok.skip(k - a + 1) =~= chars@.subrange(k + 1, b as int));
        if ta == tb {
            return PieceEffect::Skip;
        }
        let e = text::find_char(chars, la, lb, '=');
        if e < lb {
            return PieceEffect::Skip;
        }
        let lvl = match parse_level_filter(spec.substring_char(la, lb)) {
            Some(l) => l,
            None => LevelFilter::Info,
        };
        let target = spec.substring_char(ta, tb).to_owned();
        PieceEffect::Override(target, lvl)
    } else if idx == 0 {
        let lvl = match parse_level_filter(spec.substring_char(a, b)) {
            Some(l) => l,
            None => LevelFilter::Info,
        };
        PieceEffect::SetDefault(lvl)
    } else {
        PieceEffect::Skip
    }
}

proof fn lemma_insert_pos(s: Seq<(Seq<char>, LevelFilter)>, x: (Seq<char>, LevelFilter))
    ensures
        insert_pos(s, x) <= s.len(),
        forall|i: int| 0 <= i < insert_pos(s, x) ==> target_key(s[i].0) >= target_key(x.0),
        insert_pos(s, x) < s.len() ==> target_key(s[insert_pos(s, x) as int].0) < target_key(x.0),
    decreases s.len(),
{
    if s.len() > 0 && target_key(s[0].0) >= target_key(x.0) {
        lemma_insert_pos(s.drop_first(), x);
        assert forall|i: int| 0 <= i < insert_pos(s, x) implies target_key(s[i].0) >= target_key(
            x.0,
        ) by {
            if i > 0 {
                assert(s[i] == s.drop_first()[i - 1]);
            }
        }
    }
}

/// Inserting at the stable position keeps the targets sorted.
proof fn lemma_insert_by_len_sorted(s: Seq<(Seq<char>, LevelFilter)>, x: (Seq<char>, LevelFilter))
    requires
        sorted_by_len_desc(s),
    ensures
        sorted_by_len_desc(insert_by_len(s, x)),
        insert_by_len(s, x).len() == s.len() + 1,
{
    lemma_insert_pos(s, x);
    let p = insert_pos(s, x) as int;
    let r = insert_by_len(s, x);
    assert forall|i: int, j: int| 0 <= i < j < r.len() implies target_key(r[j].0) <= target_key(
        r[i].0,
    ) by {
        if j < p {
        } else if j == p {
        } else if i < p {
            assert(r[j] == s[j - 1]);
            if p < s.len() {
                assert(target_key(s[j - 1].0) <= target_key(s[p].0));
            }
        } else if i == p {
            assert(r[j] == s[j - 1]);
            assert(target_key(s[j - 1].0) <= target_key(s[p].0));
        } else {
            assert(r[j] == s[j - 1]);
            assert(r[i] == s[i - 1]);
        }
    }
}

/// A stable sort by descending target length yields a sorted sequence.
pub proof fn lemma_sort_sorted(s: Seq<(Seq<char>, LevelFilter)>)
    ensures
        sorted_by_len_desc(sort_by_len_desc(s)),
        sort_by_len_desc(s).len() == s.len(),
    decreases s.len(),
{
    if s.len() > 0 {
        lemma_sort_sorted(s.drop_last());
        lemma_insert_by_len_sorted(sort_by_len_desc(s.drop_last()), s.last());
    }
}

/// Inserts `(t, l)` into `v` at its stable position by descending target length.
fn insert_override(v: &mut Vec<(String, LevelFilter)>, t: String, l: LevelFilter)
    requires
        sorted_by_len_desc(overrides_view(old(v)@)),
    ensures
        overrides_view(final(v)@) == insert_by_len(overrides_view(old(v)@), (t@, l)),
        sorted_by_len_desc(overrides_view(final(v)@)),
{
    let ghost s = overrides_view(v@);
    let ghost x = (t@, l);
    let key = t.as_str().as_bytes().len();
    let mut p: usize = 0;
    assert(s.skip(0) =~= s);
    while p < v.len() && v[p].0.as_str().as_bytes().len() >= key
        invariant
            s == overrides_view(v@),
            x == (t@, l),
            key == target_key(t@),
            0 <= p <= v.len(),
            insert_pos(s, x) == p + insert_pos(s.skip(p as int), x),
        decreases v.len() - p,
    {
        assert(s.skip(p as int).drop_first() =~= s.skip(p + 1));
        assert(s.skip(p as int)[0] == s[p as int]);
        p = p + 1;
    }
    if p < v.len() {
        assert(s.skip(p as int)[0] == s[p as int]);
    }
    assert(insert_pos(s, x) == p);
    v.insert(p, (t, l));
    assert(overrides_view(v@) =~= s.insert(p as int, x));
    proof {
        lemma_insert_by_len_sorted(s, x);
    }
}

/// A log filter: a default level and per-target overrides, longest target first.
#[derive(Debug, Clone)]
pub struct Filter {
    default: LevelFilter,
    /// Sorted by target length descending so that the longest matching prefix wins.
    overrides: Vec<(String, LevelFilter)>,
}

impl Filter {
    /// The level of targets without a matching override.
    pub closed spec fn default_level(&self) -> LevelFilter {
        self.default
    }

    /// The overrides, in the order in which they are consulted.
    pub closed spec fn overrides(&self) -> Seq<(Seq<char>, LevelFilter)> {
        overrides_view(self.overrides@)
    }

    /// The overrides are sorted by descending target length.
    pub open spec fn wf(&self) -> bool {
        sorted_by_len_desc(self.overrides())
    }

    /// The filter that `spec` denotes: its default level, and its overrides
    /// stably sorted by descending target length.
    pub fn parse(spec: &str) -> (f: Self)
        ensures
            f.default_level() == parsed(spec@).0,
            f.overrides() == sort_by_len_desc(parsed(spec@).1),
            f.wf(),
    {
        let chars = text::chars_of(spec);
        let n = chars.len();
        let mut default = LevelFilter::Info;
        let mut overrides: Vec<(String, LevelFilter)> = Vec::new();
        let mut start: usize = 0;
        let mut idx: usize = 0;
        let ghost mut done: Seq<Seq<char>> = Seq::empty();
        let mut i: usize = 0;
        assert(chars@.take(0) =~= Seq::<char>::empty());
        assert(text::split(chars@.take(0), ',') =~= done.push(chars@.subrange(0, 0)));
        while i < n
            invariant
                n == chars.len(),
                chars@ == spec@,
                start <= i <= n,
                idx == done.len(),
                idx <= i,
                text::split(chars@.take(i as int), ',') == done.push(
                    chars@.subrange(start as int, i as int),
                ),
                default == parse_pieces(done).0,
                overrides_view(overrides@) == sort_by_len_desc(parse_pieces(done).1),
                sorted_by_len_desc(overrides_view(overrides@)),
            decreases n - i,
        {
            let ghost prefix = chars@.take(i + 1);
            assert(prefix.drop_last() =~= chars@.take(i as int));
            assert(prefix.last() == chars@[i as int]);
            let ghost done0 = done;
            let ghost start0 = start;
            if chars[i] == ',' {
                let e = piece_effect(spec, &chars, start, i, idx);
                let ghost piece = chars@.subrange(start as int, i as int);
                let ghost old_state = parse_pieces(done);
                proof {
                    let nd = done.push(piece);
                    assert(nd.drop_last() =~= done);
                    assert(parse_pieces(nd) == parse_piece(old_state, idx as int, piece));
                    done = nd;
                }
                match e {
                    PieceEffect::Skip => {},
                    PieceEffect::SetDefault(l) => {
                        default = l;
                    },
                    PieceEffect::Override(t, l) => {
                        proof {
                            let pushed = old_state.1.push((t@, l));
                            assert(pushed.drop_last() =~= old_state.1);
                        }
                        insert_override(&mut overrides, t, l);
                    },
                }
                start = i + 1;
                idx = idx + 1;
                assert(text::split(prefix.drop_last(), ',') == done0.push(
                    chars@.subrange(start0 as int, i as int),
                ));
                assert(chars@.subrange(start as int, (i + 1) as int) =~= Seq::<char>::empty());
                assert(text::split(prefix, ',') =~= done.push(
                    chars@.subrange(start as int, (i + 1) as int),
                ));
            } else {
                let ghost cur = chars@.subrange(start as int, i as int);
                assert(cur.push(chars@[i as int]) =~= chars@.subrange(start as int, (i + 1) as int));
                assert(text::split(prefix, ',') =~= done.push(
                    chars@.subrange(start as int, (i + 1) as int),
                ));
            }
            i = i + 1;
        }
        let e = piece_effect(spec, &chars, start, n, idx);
        let ghost piece = chars@.subrange(start as int, n as int);
        let ghost old_state = parse_pieces(done);
        proof {
            let nd = done.push(piece);
            assert(nd.drop_last() =~= done);
            assert(chars@.take(n as int) =~= chars@);
            done = nd;
        }
        match e {
            PieceEffect::Skip => {},
            PieceEffect::SetDefault(l) => {
                default = l;
            },
            PieceEffect::Override(t, l) => {
                proof {
                    let pushed = old_state.1.push((t@, l));
                    assert(pushed.drop_last() =~= old_state.1);
                }
                insert_override(&mut overrides, t, l);
            },
        }
        Filter { default, overrides }
    }

    /// Whether a record at `level` for `target` passes: the level of the first
    /// (longest) override whose target is `target` or a `::` ancestor of it,
    /// or else the default, must admit it.
    pub fn enabled(&self, target: &str, level: Level) -> (b: bool)
        ensures
            b == (level::level_rank(level) <= level::filter_rank(
                effective_level(self.overrides(), self.default_level(), target@),
            )),
    {
        let tv = text::chars_of(target);
        let ghost ovs = self.overrides();
        let mut j: usize = 0;
        assert(ovs.skip(0) =~= ovs);
        while j < self.overrides.len()
            invariant
                ovs == self.overrides(),
                ovs == overrides_view(self.overrides@),
                tv@ == target@,
                0 <= j <= self.overrides.len(),
                effective_level(ovs, self.default, target@) == effective_level(
                    ovs.skip(j as int),
                    self.default,
                    target@,
                ),
            decreases self.overrides.len() - j,
        {
            let pv = text::chars_of(self.overrides[j].0.as_str());
            assert(ovs.skip(j as int)[0] == ovs[j as int]);
            if matches_exec(&tv, &pv) {
                return self.overrides[j].1.admits(level);
            }
            assert(ovs.skip(j as int).drop_first() =~= ovs.skip(j + 1));
            j = j + 1;
        }
        self.default.admits(level)
    }

    /// The most verbose level that any target admits: the largest of the
    /// default and the override levels.
    pub fn max_level(&self) -> (r: LevelFilter)
        ensures
            r == max_filter(self.overrides(), self.default_level()),
    {
        let ghost ovs = self.overrides();
        let mut acc = self.default;
        let mut j: usize = 0;
        while j < self.overrides.len()
            invariant
                ovs == overrides_view(self.overrides@),
                0 <= j <= self.overrides.len(),
                acc == max_filter(ovs.take(j as int), self.default),
            decreases self.overrides.len() - j,
        {
            let l = self.overrides[j].1;
            assert(ovs.take(j + 1).drop_last() =~= ovs.take(j as int));
            if acc.rank() < l.rank() {
                acc = l;
            }
            j = j + 1;
        }
        assert(ovs.take(self.overrides.len() as int) =~= ovs);
        acc
    }
}

impl Default for Filter {
    /// `Info` for every target, with no overrides.
    fn default() -> (f: Self)
        ensures
            f.default_level() == LevelFilter::Info,
            f.overrides() == Seq::<(Seq<char>, LevelFilter)>::empty(),
            f.wf(),
    {
        let f = Filter { default: LevelFilter::Info, overrides: Vec::new() };
        assert(f.overrides() =~= Seq::<(Seq<char>, LevelFilter)>::empty());
        f
    }
}

/// The effective level is the default or the level of some override.
proof fn lemma_effective_is_some_level(
    ov: Seq<(Seq<char>, LevelFilter)>,
    d: LevelFilter,
    t: Seq<char>,
)
    ensures
        effective_level(ov, d, t) == d || exists|i: int|
            0 <= i < ov.len() && effective_level(ov, d, t) == #[trigger] ov[i].1,
    decreases ov.len(),
{
    if ov.len() > 0 && !target_matches(t, ov[0].0) {
        lemma_effective_is_some_level(ov.drop_first(), d, t);
        if effective_level(ov, d, t) != d {
            let i = choose|i: int|
                0 <= i < ov.drop_first().len() && effective_level(ov.drop_first(), d, t)
                    == #[trigger] ov.drop_first()[i].1;
            assert(ov[i + 1].1 == ov.drop_first()[i].1);
        }
    }
}

/// The default and every override level are at most `max_filter`.
proof fn lemma_max_filter_bounds(ov: Seq<(Seq<char>, LevelFilter)>, d: LevelFilter)
    ensures
        level::filter_rank(d) <= level::filter_rank(max_filter(ov, d)),
        forall|i: int|
            0 <= i < ov.len() ==> level::filter_rank(#[trigger] ov[i].1) <= level::filter_rank(
                max_filter(ov, d),
            ),
    decreases ov.len(),
{
    if ov.len() > 0 {
        lemma_max_filter_bounds(ov.drop_last(), d);
        assert forall|i: int| 0 <= i < ov.len() implies level::filter_rank(#[trigger] ov[i].1)
            <= level::filter_rank(max_filter(ov, d)) by {
            if i < ov.len() - 1 {
                assert(ov[i] == ov.drop_last()[i]);
            }
        }
    }
}

/// The maximum level bounds every decision: whenever `enabled(target, level)`
/// holds, `level` is within `max_level()`.
pub proof fn lemma_max_level_bounds_enabled(f: Filter, target: Seq<char>, level: Level)
    requires
        level::level_rank(level) <= level::filter_rank(
            effective_level(f.overrides(), f.default_level(), target),
        ),
    ensures
        level::level_rank(level) <= level::filter_rank(max_filter(f.overrides(), f.default_level())),
{
    lemma_effective_is_some_level(f.overrides(), f.default_level(), target);
    lemma_max_filter_bounds(f.overrides(), f.default_level());
}

/// The effective level comes from the first matching override, or is the
/// default when no override matches.
proof fn lemma_effective_first_match(ov: Seq<(Seq<char>, LevelFilter)>, d: LevelFilter, t: Seq<char>)
    ensures
        (forall|i: int| 0 <= i < ov.len() ==> !target_matches(t, #[trigger] ov[i].0))
            ==> effective_level(ov, d, t) == d,
        (exists|i: int| 0 <= i < ov.len() && target_matches(t, #[trigger] ov[i].0)) ==> exists|
            k: int,
        |
            0 <= k < ov.len() && target_matches(t, #[trigger] ov[k].0) && effective_level(ov, d, t)
                == ov[k].1 && forall|j: int| 0 <= j < k ==> !target_matches(t, #[trigger] ov[j].0),
    decreases ov.len(),
{
    if ov.len() > 0 {
        lemma_effective_first_match(ov.drop_first(), d, t);
        if target_matches(t, ov[0].0) {
            assert(target_matches(t, ov[0].0) && effective_level(ov, d, t) == ov[0].1);
        } else {
            if forall|i: int| 0 <= i < ov.len() ==> !target_matches(t, #[trigger] ov[i].0) {
                assert forall|i: int| 0 <= i < ov.drop_first().len() implies !target_matches(
                    t,
                    #[trigger] ov.drop_first()[i].0,
                ) by {
                    assert(ov.drop_first()[i] == ov[i + 1]);
                }
            }
            if exists|i: int| 0 <= i < ov.len() && target_matches(t, #[trigger] ov[i].0) {
                let i = choose|i: int| 0 <= i < ov.len() && target_matches(t, #[trigger] ov[i].0);
                assert(ov.drop_first()[i - 1] == ov[i]);
                let k = choose|k: int|
                    0 <= k < ov.drop_first().len() && target_matches(
                        t,
                        #[trigger] ov.drop_first()[k].0,
                    ) && effective_level(ov.drop_first(), d, t) == ov.drop_first()[k].1 && forall|
                        j: int,
                    |
                        0 <= j < k ==> !target_matches(t, #[trigger] ov.drop_first()[j].0);
                assert(ov[k + 1] == ov.drop_first()[k]);
                assert forall|j: int| 0 <= j < k + 1 implies !target_matches(
                    t,
                    #[trigger] ov[j].0,
                ) by {
                    if j > 0 {
                        assert(ov[j] == ov.drop_first()[j - 1]);
                    }
                }
            }
        }
    }
}

/// UTF-8 encoding distributes over concatenation.
proof fn lemma_encode_utf8_concat(a: Seq<char>, b: Seq<char>)
    ensures
        vstd::utf8::encode_utf8(a + b) == vstd::utf8::encode_utf8(a) + vstd::utf8::encode_utf8(b),
    decreases a.len(),
{
    if a.len() == 0 {
        assert(a + b =~= b);
        assert(vstd::utf8::encode_utf8(a) =~= Seq::<u8>::empty());
    } else {
        lemma_encode_utf8_concat(a.drop_first(), b);
        assert((a + b).drop_first() =~= a.drop_first() + b);
        assert((a + b)[0] == a[0]);
    }
}

/// A nonempty string has a nonempty encoding.
proof fn lemma_encode_utf8_nonempty(a: Seq<char>)
    requires
        a.len() > 0,
    ensures
        vstd::utf8::encode_utf8(a).len() > 0,
{
}

/// Two targets that match the same name are nested: the shorter is a
/// prefix of the longer, and so has the shorter encoding.
proof fn lemma_matches_nested(t: Seq<char>, p: Seq<char>, q: Seq<char>)
    requires
        target_matches(t, p),
        target_matches(t, q),
        p.len() < q.len(),
    ensures
        target_key(p) < target_key(q),
{
    assert(t.take(p.len() as int) == p);
    assert(q.take(p.len() as int) =~= p);
    let r = q.skip(p.len() as int);
    assert(q =~= p + r);
    lemma_encode_utf8_concat(p, r);
    lemma_encode_utf8_nonempty(r);
}

/// Longest prefix wins: when some override's target is the record's target or
/// one of its `::` ancestors, the effective level is that of a matching
/// override with the longest target; when none matches, it is the default.
pub proof fn lemma_longest_prefix_wins(f: Filter, target: Seq<char>)
    requires
        f.wf(),
    ensures
        (forall|i: int|
            0 <= i < f.overrides().len() ==> !target_matches(target, #[trigger] f.overrides()[i].0))
            ==> effective_level(f.overrides(), f.default_level(), target) == f.default_level(),
        (exists|i: int|
            0 <= i < f.overrides().len() && target_matches(target, #[trigger] f.overrides()[i].0))
            ==> exists|k: int|
            0 <= k < f.overrides().len() && target_matches(target, #[trigger] f.overrides()[k].0)
                && effective_level(f.overrides(), f.default_level(), target) == f.overrides()[k].1
                && forall|j: int|
                0 <= j < f.overrides().len() && target_matches(target, #[trigger] f.overrides()[j].0)
                    ==> f.overrides()[j].0.len() <= f.overrides()[k].0.len(),
{
    let ov = f.overrides();
    let d = f.default_level();
    lemma_effective_first_match(ov, d, target);
    if exists|i: int| 0 <= i < ov.len() && target_matches(target, #[trigger] ov[i].0) {
        let k = choose|k: int|
            0 <= k < ov.len() && target_matches(target, #[trigger] ov[k].0) && effective_level(
                ov,
                d,
                target,
            ) == ov[k].1 && forall|j: int| 0 <= j < k ==> !target_matches(target, #[trigger] ov[j].0);
        assert forall|j: int|
            0 <= j < ov.len() && target_matches(target, #[trigger] ov[j].0) implies ov[j].0.len()
            <= ov[k].0.len() by {
            if ov[j].0.len() > ov[k].0.len() {
                lemma_matches_nested(target, ov[k].0, ov[j].0);
                assert(j > k);
                assert(target_key(ov[j].0) <= target_key(ov[k].0));
            }
        }
    }
}

/// Of the overrides in the order they were written, a longest one whose
/// target matches `target`, the first written among equally long ones.
pub open spec fn longest_match(s: Seq<(Seq<char>, LevelFilter)>, target: Seq<char>) -> Option<
    (Seq<char>, LevelFilter),
>
    decreases s.len(),
{
    if s.len() == 0 {
        None
    } else {
        let b = longest_match(s.drop_last(), target);
        let x = s.last();
        if target_matches(target, x.0) && (b is None || x.0.len() > b.unwrap().0.len()) {
            Some(x)
        } else {
            b
        }
    }
}

/// The level for `target` as the filter spec words it: that of the longest
/// matching override target (the first written on ties), else the default.
pub open spec fn longest_match_level(
    overrides: Seq<(Seq<char>, LevelFilter)>,
    default: LevelFilter,
    target: Seq<char>,
) -> LevelFilter {
    match longest_match(overrides, target) {
        Some(x) => x.1,
        None => default,
    }
}

/// The first override, in order, whose target matches `target`.
pub open spec fn first_match(s: Seq<(Seq<char>, LevelFilter)>, target: Seq<char>) -> Option<
    (Seq<char>, LevelFilter),
>
    decreases s.len(),
{
    if s.len() == 0 {
        None
    } else if target_matches(target, s[0].0) {
        Some(s[0])
    } else {
        first_match(s.drop_first(), target)
    }
}

proof fn lemma_effective_is_first_match(s: Seq<(Seq<char>, LevelFilter)>, d: LevelFilter, t: Seq<char>)
    ensures
        effective_level(s, d, t) == match first_match(s, t) {
            Some(x) => x.1,
            None => d,
        },
    decreases s.len(),
{
    if s.len() > 0 {
        lemma_effective_is_first_match(s.drop_first(), d, t);
    }
}

proof fn lemma_first_match_at(s: Seq<(Seq<char>, LevelFilter)>, t: Seq<char>)
    ensures
        first_match(s, t) is None <==> forall|j: int| 0 <= j < s.len() ==> !target_matches(t, #[trigger] s[j].0),
        first_match(s, t) is Some ==> exists|q: int|
            0 <= q < s.len() && #[trigger] s[q] == first_match(s, t)->0 && target_matches(t, s[q].0)
                && forall|j: int| 0 <= j < q ==> !target_matches(t, #[trigger] s[j].0),
    decreases s.len(),
{
    if s.len() > 0 {
        let r = s.drop_first();
        lemma_first_match_at(r, t);
        if !target_matches(t, s[0].0) {
            if first_match(r, t) is Some {
                let q = choose|q: int|
                    0 <= q < r.len() && #[trigger] r[q] == first_match(r, t)->0 && target_matches(t, r[q].0)
                        && forall|j: int| 0 <= j < q ==> !target_matches(t, #[trigger] r[j].0);
                assert(s[q + 1] == r[q]);
                assert forall|j: int| 0 <= j < q + 1 implies !target_matches(t, #[trigger] s[j].0) by {
                    if j > 0 {
                        assert(s[j] == r[j - 1]);
                    }
                }
            } else {
                assert forall|j: int| 0 <= j < s.len() implies !target_matches(t, #[trigger] s[j].0) by {
                    if j > 0 {
                        assert(s[j] == r[j - 1]);
                    }
                }
            }
            if forall|j: int| 0 <= j < s.len() ==> !target_matches(t, #[trigger] s[j].0) {
                assert forall|j: int| 0 <= j < r.len() implies !target_matches(t, #[trigger] r[j].0) by {
                    assert(r[j] == s[j + 1]);
                }
            }
        }
    }
}

proof fn lemma_first_match_insert(
    u: Seq<(Seq<char>, LevelFilter)>,
    p: int,
    x: (Seq<char>, LevelFilter),
    t: Seq<char>,
)
    requires
        0 <= p <= u.len(),
    ensures
        (exists|j: int| 0 <= j < p && target_matches(t, #[trigger] u[j].0)) ==> first_match(
            u.insert(p, x),
            t,
        ) == first_match(u, t),
        !(exists|j: int| 0 <= j < p && target_matches(t, #[trigger] u[j].0)) ==> first_match(
            u.insert(p, x),
            t,
        ) == if target_matches(t, x.0) {
            Some(x)
        } else {
            first_match(u, t)
        },
    decreases p,
{
    let v = u.insert(p, x);
    if p == 0 {
        assert(v.drop_first() =~= u);
        assert(v[0] == x);
    } else {
        assert(v[0] == u[0]);
        assert(v.drop_first() =~= u.drop_first().insert(p - 1, x));
        lemma_first_match_insert(u.drop_first(), p - 1, x, t);
        if exists|j: int| 0 <= j < p - 1 && target_matches(t, #[trigger] u.drop_first()[j].0) {
            let j = choose|j: int| 0 <= j < p - 1 && target_matches(t, #[trigger] u.drop_first()[j].0);
            assert(u[j + 1] == u.drop_first()[j]);
        }
        if exists|j: int| 0 <= j < p && target_matches(t, #[trigger] u[j].0) {
            let j = choose|j: int| 0 <= j < p && target_matches(t, #[trigger] u[j].0);
            if j > 0 && !target_matches(t, u[0].0) {
                assert(u.drop_first()[j - 1] == u[j]);
            }
        }
    }
}

/// Two targets that match the same name with the same length are equal.
proof fn lemma_matches_same_len(t: Seq<char>, p: Seq<char>, q: Seq<char>)
    requires
        target_matches(t, p),
        target_matches(t, q),
        p.len() == q.len(),
    ensures
        p == q,
{
    assert(t.take(p.len() as int) == p);
    assert(t.take(q.len() as int) == q);
}

/// Sorting by descending target length makes the first matching override
/// the longest matching one, the first written on ties.
proof fn lemma_sort_first_match(s: Seq<(Seq<char>, LevelFilter)>, t: Seq<char>)
    ensures
        first_match(sort_by_len_desc(s), t) == longest_match(s, t),
    decreases s.len(),
{
    if s.len() > 0 {
        let s1 = s.drop_last();
        let x = s.last();
        lemma_sort_first_match(s1, t);
        lemma_sort_sorted(s1);
        let u = sort_by_len_desc(s1);
        let p = insert_pos(u, x) as int;
        lemma_insert_pos(u, x);
        lemma_first_match_insert(u, p, x, t);
        lemma_first_match_at(u, t);
        let b = longest_match(s1, t);
        if target_matches(t, x.0) {
            if b is Some {
                let q = choose|q: int|
                    0 <= q < u.len() && #[trigger] u[q] == first_match(u, t)->0 && target_matches(t, u[q].0)
                        && forall|j: int| 0 <= j < q ==> !target_matches(t, #[trigger] u[j].0);
                if x.0.len() <= b.unwrap().0.len() {
                    if x.0.len() < b.unwrap().0.len() {
                        lemma_matches_nested(t, x.0, u[q].0);
                    } else {
                        lemma_matches_same_len(t, x.0, u[q].0);
                    }
                    if q >= p {
                        assert(target_key(u[q].0) <= target_key(u[p].0));
                    }
                    assert(target_matches(t, u[q].0));
                } else {
                    assert forall|j: int| 0 <= j < p implies !target_matches(t, #[trigger] u[j].0) by {
                        if target_matches(t, u[j].0) {
                            assert(q <= j);
                            if u[j].0.len() < x.0.len() {
                                lemma_matches_nested(t, u[j].0, x.0);
                            } else {
                                lemma_matches_nested(t, u[q].0, u[j].0);
                            }
                        }
                    }
                }
            }
        }
    }
}

/// The filter that `spec` denotes gives each target the level of its
/// longest matching override target in `spec` (the first written on ties),
/// or the default level when none matches; records at or above that level
/// pass.
pub proof fn lemma_parse_levels(f: Filter, spec: Seq<char>, target: Seq<char>)
    requires
        f.default_level() == parsed(spec).0,
        f.overrides() == sort_by_len_desc(parsed(spec).1),
    ensures
        effective_level(f.overrides(), f.default_level(), target) == longest_match_level(
            parsed(spec).1,
            parsed(spec).0,
            target,
        ),
{
    lemma_effective_is_first_match(f.overrides(), f.default_level(), target);
    lemma_sort_first_match(parsed(spec).1, target);
}

} // verus!
