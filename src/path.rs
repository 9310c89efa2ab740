//! Location paths of matches.
//!
//! The query engine reports where each match sits as a normalized path:
//! `$` followed by `['name']` for an object member (with the name escaped,
//! `\` introducing each escape) and `[n]` for an array element. This module
//! reads such a path and renders it in the library's canonical form, where a
//! member whose name is a plain identifier is written `.name`.
use vstd::prelude::*;
use vstd::std_specs::iter::IteratorSpec;

verus! {

/// One step of a location path, as written in the normalized text.
pub enum Step {
    /// An object member; the escaped name as it stands between the quotes.
    Name(Seq<char>),
    /// An array element; the decimal digits of its index.
    Index(Seq<char>),
}

pub open spec fn is_digit(c: char) -> bool {
    '0' <= c && c <= '9'
}

pub open spec fn is_alpha_or_underscore(c: char) -> bool {
    ('a' <= c && c <= 'z') || ('A' <= c && c <= 'Z') || c == '_'
}

/// An escaped member name: plain characters other than `'` and `\`, and
/// escapes made of `\` and one more character.
pub open spec fn body_ok(b: Seq<char>) -> bool
    decreases b.len(),
{
    if b.len() == 0 {
        true
    } else if b[0] == '\\' {
        b.len() >= 2 && body_ok(b.subrange(2, b.len() as int))
    } else {
        b[0] != '\'' && body_ok(b.subrange(1, b.len() as int))
    }
}

pub open spec fn segment_ok(g: Step) -> bool {
    match g {
        Step::Name(b) => body_ok(b),
        Step::Index(d) => d.len() > 0 && forall|k: int| 0 <= k < d.len() ==> is_digit(#[trigger] d[k]),
    }
}

pub open spec fn segments_ok(segs: Seq<Step>) -> bool {
    forall|k: int| 0 <= k < segs.len() ==> segment_ok(#[trigger] segs[k])
}

/// The normalized text of one step: `['name']` or `[n]`.
pub open spec fn normalized_segment(g: Step) -> Seq<char> {
    match g {
        Step::Name(b) => seq!['[', '\''] + b + seq!['\'', ']'],
        Step::Index(d) => seq!['['] + d + seq![']'],
    }
}

/// A name that can be written after a dot: a letter or `_`, then letters,
/// digits and `_`.
pub open spec fn is_shorthand(b: Seq<char>) -> bool {
    &&& b.len() > 0
    &&& is_alpha_or_underscore(b[0])
    &&& forall|k: int| 0 <= k < b.len() ==> is_alpha_or_underscore(#[trigger] b[k]) || is_digit(b[k])
}

/// The canonical text of one step: `.name` for a plain identifier, the
/// normalized text otherwise.
pub open spec fn canonical_segment(g: Step) -> Seq<char> {
    match g {
        Step::Name(b) => if is_shorthand(b) {
            seq!['.'] + b
        } else {
            normalized_segment(g)
        },
        Step::Index(_) => normalized_segment(g),
    }
}

pub open spec fn normalized_steps(segs: Seq<Step>) -> Seq<char>
    decreases segs.len(),
{
    if segs.len() == 0 {
        Seq::empty()
    } else {
        normalized_segment(segs[0]) + normalized_steps(segs.drop_first())
    }
}

pub open spec fn canonical_steps(segs: Seq<Step>) -> Seq<char>
    decreases segs.len(),
{
    if segs.len() == 0 {
        Seq::empty()
    } else {
        canonical_steps(segs.drop_last()) + canonical_segment(segs.last())
    }
}

/// The normalized path of a sequence of steps.
pub open spec fn normalized_text(segs: Seq<Step>) -> Seq<char> {
    seq!['$'] + normalized_steps(segs)
}

/// The canonical path of a sequence of steps.
pub open spec fn canonical_text(segs: Seq<Step>) -> Seq<char> {
    seq!['$'] + canonical_steps(segs)
}

proof fn lemma_steps_push(segs: Seq<Step>, g: Step)
    ensures
        normalized_steps(segs.push(g)) == normalized_steps(segs) + normalized_segment(g),
    decreases segs.len(),
{
    if segs.len() == 0 {
        assert(segs.push(g).drop_first() =~= Seq::<Step>::empty());
        assert(normalized_steps(Seq::<Step>::empty()) == Seq::<char>::empty());
        assert(normalized_steps(segs.push(g)) =~= normalized_steps(segs) + normalized_segment(g));
    } else {
        lemma_steps_push(segs.drop_first(), g);
        assert(segs.push(g).drop_first() =~= segs.drop_first().push(g));
        assert(segs.push(g)[0] == segs[0]);
        assert(normalized_steps(segs.push(g)) =~= normalized_steps(segs) + normalized_segment(g));
    }
}

/// The path of the document itself.
pub open spec fn is_root(p: Seq<char>) -> bool {
    p == seq!['$']
}

/// `raw` is the normalized path of some sequence of steps.
pub open spec fn is_normalized(raw: Seq<char>) -> bool {
    exists|segs: Seq<Step>| segments_ok(segs) && #[trigger] normalized_text(segs) == raw
}

/// `c` is the canonical path of steps whose normalized path is `raw`.
pub open spec fn canonical_of(raw: Seq<char>, c: Seq<char>) -> bool {
    exists|segs: Seq<Step>|
        #![trigger normalized_text(segs), canonical_text(segs)]
        segments_ok(segs) && normalized_text(segs) == raw && c == canonical_text(segs)
}

/// `c` is the canonical path of some sequence of steps.
pub open spec fn is_canonical(c: Seq<char>) -> bool {
    exists|segs: Seq<Step>| segments_ok(segs) && #[trigger] canonical_text(segs) == c
}

proof fn lemma_body_unique(b1: Seq<char>, b2: Seq<char>, r1: Seq<char>, r2: Seq<char>)
    requires
        body_ok(b1),
        body_ok(b2),
        b1 + seq!['\''] + r1 == b2 + seq!['\''] + r2,
    ensures
        b1 == b2,
        r1 == r2,
    decreases b1.len(),
{
    let t = b1 + seq!['\''] + r1;
    let u = b2 + seq!['\''] + r2;
    if b1.len() == 0 {
        assert(t[0] == '\'');
        if b2.len() > 0 {
            assert(u[0] == b2[0]);
        }
        assert(b1 =~= b2);
        assert(r1 =~= t.subrange(1, t.len() as int));
        assert(r2 =~= u.subrange(1, u.len() as int));
    } else {
        let w: int = if b1[0] == '\\' {
            2
        } else {
            1
        };
        assert(t[0] == b1[0]);
        if b2.len() == 0 {
            assert(u[0] == '\'');
        } else {
            assert(u[0] == b2[0]);
        }
        assert(b2.len() > 0);
        if w == 2 {
            assert(t[1] == b1[1]);
            assert(u[1] == b2[1]);
        }
        let c1 = b1.subrange(w, b1.len() as int);
        let c2 = b2.subrange(w, b2.len() as int);
        assert(c1 + seq!['\''] + r1 =~= t.subrange(w, t.len() as int));
        assert(c2 + seq!['\''] + r2 =~= u.subrange(w, u.len() as int));
        lemma_body_unique(c1, c2, r1, r2);
        assert(b1 =~= b1.subrange(0, w) + c1);
        assert(b2 =~= b2.subrange(0, w) + c2);
        assert(b1.subrange(0, w) =~= b2.subrange(0, w)) by {
            assert(b1[0] == b2[0]);
        }
    }
}

proof fn lemma_digits_unique(d1: Seq<char>, d2: Seq<char>, r1: Seq<char>, r2: Seq<char>)
    requires
        forall|k: int| 0 <= k < d1.len() ==> is_digit(#[trigger] d1[k]),
        forall|k: int| 0 <= k < d2.len() ==> is_digit(#[trigger] d2[k]),
        d1 + seq![']'] + r1 == d2 + seq![']'] + r2,
    ensures
        d1 == d2,
        r1 == r2,
{
    let t = d1 + seq![']'] + r1;
    let u = d2 + seq![']'] + r2;
    if d1.len() < d2.len() {
        assert(t[d1.len() as int] == ']');
        assert(u[d1.len() as int] == d2[d1.len() as int]);
    }
    if d2.len() < d1.len() {
        assert(u[d2.len() as int] == ']');
        assert(t[d2.len() as int] == d1[d2.len() as int]);
    }
    assert(d1 =~= t.subrange(0, d1.len() as int));
    assert(d2 =~= u.subrange(0, d2.len() as int));
    assert(r1 =~= t.subrange(d1.len() as int + 1, t.len() as int));
    assert(r2 =~= u.subrange(d2.len() as int + 1, u.len() as int));
}

/// Different sequences of steps have different normalized paths.
pub proof fn lemma_steps_unique(a: Seq<Step>, b: Seq<Step>)
    requires
        segments_ok(a),
        segments_ok(b),
        normalized_steps(a) == normalized_steps(b),
    ensures
        a == b,
    decreases a.len(),
{
    if a.len() == 0 || b.len() == 0 {
        if a.len() > 0 {
            assert(normalized_steps(a).len() >= normalized_segment(a[0]).len());
        }
        if b.len() > 0 {
            assert(normalized_steps(b).len() >= normalized_segment(b[0]).len());
        }
        assert(a =~= b);
    } else {
        let ta = normalized_steps(a.drop_first());
        let tb = normalized_steps(b.drop_first());
        let t = normalized_steps(a);
        assert(segment_ok(a[0]) && segment_ok(b[0]));
        assert(t == normalized_segment(a[0]) + ta);
        assert(t == normalized_segment(b[0]) + tb);
        match a[0] {
            Step::Name(x) => {
                assert(t[1] == '\'');
                match b[0] {
                    Step::Name(y) => {
                        assert(t.subrange(2, t.len() as int) =~= x + seq!['\''] + (seq![']'] + ta));
                        assert(t.subrange(2, t.len() as int) =~= y + seq!['\''] + (seq![']'] + tb));
                        lemma_body_unique(x, y, seq![']'] + ta, seq![']'] + tb);
                        assert(ta =~= (seq![']'] + ta).subrange(1, ta.len() as int + 1));
                        assert(tb =~= (seq![']'] + tb).subrange(1, tb.len() as int + 1));
                    },
                    Step::Index(e) => {
                        assert(t[1] == e[0]);
                    },
                }
            },
            Step::Index(d) => {
                assert(t[1] == d[0]);
                match b[0] {
                    Step::Name(y) => {
                        assert(t[1] == '\'');
                    },
                    Step::Index(e) => {
                        assert(t.subrange(1, t.len() as int) =~= d + seq![']'] + ta);
                        assert(t.subrange(1, t.len() as int) =~= e + seq![']'] + tb);
                        lemma_digits_unique(d, e, ta, tb);
                    },
                }
            },
        }
        assert(a[0] == b[0]);
        assert(segments_ok(a.drop_first()));
        assert(segments_ok(b.drop_first())) by {
            assert forall|k: int| 0 <= k < b.drop_first().len() implies segment_ok(
                #[trigger] b.drop_first()[k],
            ) by {
                assert(b.drop_first()[k] == b[k + 1]);
            }
        }
        lemma_steps_unique(a.drop_first(), b.drop_first());
        assert(a =~= seq![a[0]] + a.drop_first());
        assert(b =~= seq![b[0]] + b.drop_first());
    }
}

proof fn lemma_canonical_front(a: Seq<Step>)
    requires
        a.len() > 0,
    ensures
        canonical_steps(a) == canonical_segment(a[0]) + canonical_steps(a.drop_first()),
    decreases a.len(),
{
    if a.len() == 1 {
        assert(a.drop_last() =~= Seq::<Step>::empty());
        assert(a.drop_first() =~= Seq::<Step>::empty());
        assert(canonical_steps(a.drop_first()) == Seq::<char>::empty());
        assert(canonical_steps(a) =~= canonical_segment(a[0]) + canonical_steps(a.drop_first()));
    } else {
        lemma_canonical_front(a.drop_last());
        assert(a.drop_last().drop_first() =~= a.drop_first().drop_last());
        assert(a.drop_first().last() == a.last());
        assert(a.drop_last()[0] == a[0]);
        assert(canonical_steps(a) =~= canonical_segment(a[0]) + canonical_steps(a.drop_first()));
    }
}

proof fn lemma_canonical_starts(a: Seq<Step>)
    requires
        a.len() > 0,
    ensures
        canonical_steps(a).len() > 0,
        canonical_steps(a)[0] == '.' || canonical_steps(a)[0] == '[',
{
    lemma_canonical_front(a);
    let g = canonical_segment(a[0]);
    assert(canonical_steps(a)[0] == g[0]);
}

proof fn lemma_shorthand_unique(x: Seq<char>, y: Seq<char>, r1: Seq<char>, r2: Seq<char>)
    requires
        is_shorthand(x),
        is_shorthand(y),
        r1.len() == 0 || r1[0] == '.' || r1[0] == '[',
        r2.len() == 0 || r2[0] == '.' || r2[0] == '[',
        x + r1 == y + r2,
    ensures
        x == y,
        r1 == r2,
{
    let t = x + r1;
    let u = y + r2;
    if x.len() < y.len() {
        assert(u[x.len() as int] == y[x.len() as int]);
        assert(t[x.len() as int] == r1[0]);
    }
    if y.len() < x.len() {
        assert(t[y.len() as int] == x[y.len() as int]);
        assert(u[y.len() as int] == r2[0]);
    }
    assert(x =~= t.subrange(0, x.len() as int));
    assert(y =~= u.subrange(0, y.len() as int));
    assert(r1 =~= t.subrange(x.len() as int, t.len() as int));
    assert(r2 =~= u.subrange(y.len() as int, u.len() as int));
}

/// Different sequences of steps have different canonical paths: a canonical
/// path names a single location.
pub proof fn lemma_canonical_unique(a: Seq<Step>, b: Seq<Step>)
    requires
        segments_ok(a),
        segments_ok(b),
        canonical_text(a) == canonical_text(b),
    ensures
        a == b,
    decreases a.len(),
{
    assert(canonical_steps(a) =~= canonical_text(a).subrange(1, canonical_text(a).len() as int));
    assert(canonical_steps(b) =~= canonical_text(b).subrange(1, canonical_text(b).len() as int));
    if a.len() == 0 || b.len() == 0 {
        if a.len() > 0 {
            lemma_canonical_starts(a);
        }
        if b.len() > 0 {
            lemma_canonical_starts(b);
        }
        assert(a =~= b);
    } else {
        lemma_canonical_front(a);
        lemma_canonical_front(b);
        let a1 = a.drop_first();
        let b1 = b.drop_first();
        let ta = canonical_steps(a1);
        let tb = canonical_steps(b1);
        let t = canonical_steps(a);
        assert(segment_ok(a[0]) && segment_ok(b[0]));
        assert(t == canonical_segment(a[0]) + ta);
        assert(t == canonical_segment(b[0]) + tb);
        if a1.len() > 0 {
            lemma_canonical_starts(a1);
        }
        if b1.len() > 0 {
            lemma_canonical_starts(b1);
        }
        assert(a1.len() == 0 ==> ta.len() == 0);
        assert(b1.len() == 0 ==> tb.len() == 0);
        match a[0] {
            Step::Name(x) => {
                if is_shorthand(x) {
                    assert(t[0] == '.');
                    match b[0] {
                        Step::Name(y) => {
                            if is_shorthand(y) {
                                assert(t.subrange(1, t.len() as int) =~= x + ta);
                                assert(t.subrange(1, t.len() as int) =~= y + tb);
                                lemma_shorthand_unique(x, y, ta, tb);
                            } else {
                                assert(t[0] == '[');
                            }
                        },
                        Step::Index(e) => {
                            assert(t[0] == '[');
                        },
                    }
                } else {
                    assert(t[0] == '[');
                    assert(t[1] == '\'');
                    match b[0] {
                        Step::Name(y) => {
                            if is_shorthand(y) {
                                assert(t[0] == '.');
                            } else {
                                assert(t.subrange(2, t.len() as int) =~= x + seq!['\''] + (
                                seq![']'] + ta));
                                assert(t.subrange(2, t.len() as int) =~= y + seq!['\''] + (
                                seq![']'] + tb));
                                lemma_body_unique(x, y, seq![']'] + ta, seq![']'] + tb);
                                assert(ta =~= (seq![']'] + ta).subrange(1, ta.len() as int + 1));
                                assert(tb =~= (seq![']'] + tb).subrange(1, tb.len() as int + 1));
                            }
                        },
                        Step::Index(e) => {
                            assert(t[1] == e[0]);
                        },
                    }
                }
            },
            Step::Index(d) => {
                assert(t[0] == '[');
                assert(t[1] == d[0]);
                match b[0] {
                    Step::Name(y) => {
                        if is_shorthand(y) {
                            assert(t[0] == '.');
                        } else {
                            assert(t[1] == '\'');
                        }
                    },
                    Step::Index(e) => {
                        assert(t.subrange(1, t.len() as int) =~= d + seq![']'] + ta);
                        assert(t.subrange(1, t.len() as int) =~= e + seq![']'] + tb);
                        lemma_digits_unique(d, e, ta, tb);
                    },
                }
            },
        }
        assert(a[0] == b[0]);
        assert(segments_ok(a1));
        assert(segments_ok(b1)) by {
            assert forall|k: int| 0 <= k < b1.len() implies segment_ok(#[trigger] b1[k]) by {
                assert(b1[k] == b[k + 1]);
            }
        }
        assert(canonical_text(a1) =~= seq!['$'] + ta);
        assert(canonical_text(b1) =~= seq!['$'] + tb);
        lemma_canonical_unique(a1, b1);
        assert(a =~= seq![a[0]] + a1);
        assert(b =~= seq![b[0]] + b1);
    }
}

/// The canonical form of a normalized path.
pub open spec fn canonical_form(raw: Seq<char>) -> Seq<char> {
    canonical_text(choose|segs: Seq<Step>| segments_ok(segs) && #[trigger] normalized_text(segs) == raw)
}

/// A normalized path has a single canonical form.
pub proof fn lemma_canonical_of_unique(raw: Seq<char>, c: Seq<char>)
    requires
        canonical_of(raw, c),
    ensures
        c == canonical_form(raw),
        is_normalized(raw),
{
    let a = choose|segs: Seq<Step>|
        #![trigger normalized_text(segs), canonical_text(segs)]
        segments_ok(segs) && normalized_text(segs) == raw && c == canonical_text(segs);
    assert(is_normalized(raw));
    let b = choose|segs: Seq<Step>| segments_ok(segs) && #[trigger] normalized_text(segs) == raw;
    assert(normalized_steps(a) =~= normalized_text(a).subrange(1, raw.len() as int));
    assert(normalized_steps(b) =~= normalized_text(b).subrange(1, raw.len() as int));
    lemma_steps_unique(a, b);
}

/// The document root is written `$` in both forms.
pub proof fn lemma_root_canonical()
    ensures
        canonical_of(seq!['$'], seq!['$']),
        canonical_form(seq!['$']) == seq!['$'],
{
    let e = Seq::<Step>::empty();
    assert(normalized_text(e) =~= seq!['$']);
    assert(canonical_text(e) =~= seq!['$']);
    lemma_canonical_of_unique(seq!['$'], seq!['$']);
}

/// The characters of `s`, in order.
fn chars_of(s: &str) -> (r: Vec<char>)
    ensures
        r@ == s@,
{
    broadcast use vstd::string::axiom_spec_iter, vstd::string::next_postcondition;

    let mut it = s.chars();
    let mut v: Vec<char> = Vec::new();
    loop
        invariant
            it.obeys_prophetic_iter_laws(),
            it.decrease() is Some,
            v@ + it.remaining() == s@,
        ensures
            v@ == s@,
        decreases it.decrease()->0,
    {
        match it.next() {
            Some(c) => {
                v.push(c);
                assert(v@ + it.remaining() =~= s@);
            },
            None => {
                assert(v@ =~= s@);
                break;
            },
        }
    }
    v
}

/// Relies on `String: FromIterator<char>`: the string of the given characters.
#[verifier::external_body]
fn string_of(v: &Vec<char>) -> (r: String)
    ensures
        r@ == v@,
{
    v.iter().collect()
}

fn push_all(out: &mut Vec<char>, s: &Vec<char>, from: usize, to: usize)
    requires
        from <= to <= s@.len(),
    ensures
        final(out)@ == old(out)@ + s@.subrange(from as int, to as int),
{
    let mut k: usize = from;
    while k < to
        invariant
            from <= k <= to <= s@.len(),
            out@ == old(out)@ + s@.subrange(from as int, k as int),
        decreases to - k,
    {
        out.push(s[k]);
        k = k + 1;
        assert(out@ =~= old(out)@ + s@.subrange(from as int, k as int));
    }
}

proof fn lemma_body_extend(b: Seq<char>, u: Seq<char>)
    requires
        body_ok(b),
        (u.len() == 1 && u[0] != '\'' && u[0] != '\\') || (u.len() == 2 && u[0] == '\\'),
    ensures
        body_ok(b + u),
    decreases b.len(),
{
    if b.len() == 0 {
        assert(b + u =~= u);
        assert(body_ok(Seq::<char>::empty()));
        if u.len() == 2 {
            assert(u.subrange(2, 2) =~= Seq::<char>::empty());
        } else {
            assert(u.subrange(1, 1) =~= Seq::<char>::empty());
        }
    } else if b[0] == '\\' {
        assert((b + u)[0] == b[0]);
        lemma_body_extend(b.subrange(2, b.len() as int), u);
        assert((b + u).subrange(2, (b + u).len() as int) =~= b.subrange(2, b.len() as int) + u);
    } else {
        assert((b + u)[0] == b[0]);
        lemma_body_extend(b.subrange(1, b.len() as int), u);
        assert((b + u).subrange(1, (b + u).len() as int) =~= b.subrange(1, b.len() as int) + u);
    }
}

fn is_shorthand_exec(s: &Vec<char>, from: usize, to: usize) -> (r: bool)
    requires
        from <= to <= s@.len(),
    ensures
        r == is_shorthand(s@.subrange(from as int, to as int)),
{
    if from == to {
        return false;
    }
    let c0 = s[from];
    if !(('a' <= c0 && c0 <= 'z') || ('A' <= c0 && c0 <= 'Z') || c0 == '_') {
        return false;
    }
    let mut k: usize = from;
    while k < to
        invariant
            from <= k <= to <= s@.len(),
            forall|m: int|
                from <= m < k ==> is_alpha_or_underscore(#[trigger] s@[m]) || is_digit(s@[m]),
        decreases to - k,
    {
        let c = s[k];
        if !(('a' <= c && c <= 'z') || ('A' <= c && c <= 'Z') || c == '_' || ('0' <= c && c
            <= '9')) {
            assert(!(is_alpha_or_underscore(s@.subrange(from as int, to as int)[k - from])
                || is_digit(s@.subrange(from as int, to as int)[k - from])));
            return false;
        }
        k = k + 1;
    }
    assert forall|m: int| 0 <= m < to - from implies is_alpha_or_underscore(
        #[trigger] s@.subrange(from as int, to as int)[m],
    ) || is_digit(s@.subrange(from as int, to as int)[m]) by {
        assert(s@.subrange(from as int, to as int)[m] == s@[from + m]);
    }
    true
}

proof fn lemma_step_text(s: Seq<char>, i: int, rest: Seq<Step>)
    requires
        0 <= i <= s.len(),
        rest.len() > 0,
        normalized_steps(rest) == s.subrange(i, s.len() as int),
    ensures
        i + normalized_segment(rest[0]).len() <= s.len(),
        forall|k: int|
            0 <= k < normalized_segment(rest[0]).len() ==> s[i + k] == #[trigger] normalized_segment(
                rest[0],
            )[k],
        normalized_steps(rest.drop_first()) == s.subrange(
            i + normalized_segment(rest[0]).len(),
            s.len() as int,
        ),
{
    let g = normalized_segment(rest[0]);
    let tail = normalized_steps(rest.drop_first());
    let t = s.subrange(i, s.len() as int);
    assert(t == g + tail);
    assert(t.len() == g.len() + tail.len());
    assert forall|k: int| 0 <= k < g.len() implies s[i + k] == #[trigger] g[k] by {
        assert(t[k] == s[i + k]);
        assert((g + tail)[k] == g[k]);
    }
    assert(s.subrange(i + g.len(), s.len() as int) =~= tail) by {
        assert forall|k: int| 0 <= k < tail.len() implies s.subrange(
            i + g.len(),
            s.len() as int,
        )[k] == tail[k] by {
            assert(t[g.len() + k] == (g + tail)[g.len() + k]);
        }
    }
}

/// Finds where an escaped member name that begins at `start` ends: at the
/// first `'` that no `\` escapes.
fn scan_name(s: &Vec<char>, start: usize) -> (r: Option<usize>)
    requires
        start <= s@.len(),
    ensures
        r matches Some(j) ==> start <= j < s@.len() && s@[j as int] == '\'' && body_ok(
            s@.subrange(start as int, j as int),
        ),
        forall|e: int|
            start <= e < s@.len() && s@[e] == '\'' && body_ok(#[trigger] s@.subrange(start as int, e))
                ==> r == Some(e as usize),
{
    let n = s.len();
    let mut j: usize = start;
    assert(s@.subrange(start as int, j as int) =~= Seq::<char>::empty());
    while j < n && s[j] != '\''
        invariant
            start <= j <= n,
            n == s@.len(),
            body_ok(s@.subrange(start as int, j as int)),
            forall|e: int|
                start <= e < n && s@[e] == '\'' && body_ok(#[trigger] s@.subrange(start as int, e))
                    ==> j <= e && body_ok(s@.subrange(j as int, e)),
        decreases n - j,
    {
        let w: usize = if s[j] == '\\' {
            2
        } else {
            1
        };
        assert forall|e: int|
            start <= e < n && s@[e] == '\'' && body_ok(#[trigger] s@.subrange(start as int, e)) implies j
            + w <= e && body_ok(s@.subrange(j + w, e)) by {
            let x = s@.subrange(j as int, e);
            assert(j != e);
            assert(x[0] == s@[j as int]);
            assert(x.subrange(w as int, x.len() as int) =~= s@.subrange(j + w, e));
        }
        if w > n - j {
            assert(forall|e: int|
                start <= e < n && s@[e] == '\'' ==> !body_ok(#[trigger] s@.subrange(start as int, e)));
            return None;
        }
        proof {
            lemma_body_extend(s@.subrange(start as int, j as int), s@.subrange(j as int, j + w));
            assert(s@.subrange(start as int, j as int) + s@.subrange(j as int, j + w)
                =~= s@.subrange(start as int, j + w));
        }
        j = j + w;
    }
    if j >= n {
        return None;
    }
    assert forall|e: int|
        start <= e < n && s@[e] == '\'' && body_ok(#[trigger] s@.subrange(start as int, e)) implies j
        == e by {
        if j < e {
            assert(s@.subrange(j as int, e)[0] == s@[j as int]);
        }
    }
    Some(j)
}

/// Finds where the run of decimal digits that begins at `start` ends.
fn scan_digits(s: &Vec<char>, start: usize) -> (r: usize)
    requires
        start <= s@.len(),
    ensures
        start <= r <= s@.len(),
        forall|k: int| start <= k < r ==> is_digit(#[trigger] s@[k]),
        r < s@.len() ==> !is_digit(s@[r as int]),
{
    let mut j: usize = start;
    while j < s.len() && '0' <= s[j] && s[j] <= '9'
        invariant
            start <= j <= s@.len(),
            forall|k: int| start <= k < j ==> is_digit(#[trigger] s@[k]),
        decreases s@.len() - j,
    {
        j = j + 1;
    }
    j
}

/// Renders a normalized path in canonical form.
///
/// Returns `None` exactly when `raw` is not the normalized path of any
/// sequence of steps; otherwise the canonical path of those steps.
#[verifier::rlimit(60)]
pub fn canonical_path(raw: &str) -> (r: Option<String>)
    ensures
        r is Some <==> is_normalized(raw@),
        r matches Some(c) ==> canonical_of(raw@, c@) && c@ == canonical_form(raw@),
{
    let s = chars_of(raw);
    let n = s.len();
    let ghost tw: Option<Seq<Step>> = if is_normalized(raw@) {
        Some(choose|t: Seq<Step>| segments_ok(t) && #[trigger] normalized_text(t) == raw@)
    } else {
        None
    };
    if n == 0 || s[0] != '$' {
        proof {
            if tw is Some {
                assert(normalized_text(tw->0)[0] == '$');
            }
        }
        return None;
    }
    let mut out: Vec<char> = Vec::new();
    out.push('$');
    let ghost mut segs: Seq<Step> = Seq::empty();
    let ghost mut m: int = 0;
    let mut i: usize = 1;
    assert(s@.subrange(0, 1) =~= normalized_text(segs));
    assert(out@ =~= canonical_text(segs));
    proof {
        if tw is Some {
            let t = tw->0;
            assert(t.subrange(0, t.len() as int) =~= t);
            assert(s@.subrange(1, n as int) =~= normalized_text(t).subrange(1, n as int));
            assert(normalized_text(t).subrange(1, n as int) =~= normalized_steps(t));
        }
    }
    while i < n
        invariant
            1 <= i <= n,
            n == s@.len(),
            s@ == raw@,
            segments_ok(segs),
            s@.subrange(0, i as int) == normalized_text(segs),
            out@ == canonical_text(segs),
            tw is Some <==> is_normalized(raw@),
            tw is Some ==> segments_ok(tw->0) && 0 <= m <= tw->0.len() && normalized_steps(
                tw->0.subrange(m, tw->0.len() as int),
            ) == s@.subrange(i as int, n as int),
        decreases n - i,
    {
        // When `raw` is normalized, `rest` holds the steps still to be read
        // and `g` the text of the next one.
        let ghost rest: Seq<Step> = if tw is Some {
            tw->0.subrange(m, tw->0.len() as int)
        } else {
            Seq::empty()
        };
        let ghost g: Seq<char> = if tw is Some && rest.len() > 0 {
            normalized_segment(rest[0])
        } else {
            Seq::empty()
        };
        proof {
            if tw is Some {
                if rest.len() == 0 {
                    assert(s@.subrange(i as int, n as int).len() == 0);
                }
                lemma_step_text(s@, i as int, rest);
                assert(segment_ok(rest[0])) by {
                    assert(rest[0] == tw->0[m]);
                }
                assert(rest.drop_first() =~= tw->0.subrange(m + 1, tw->0.len() as int));
                assert(s@[i + 0] == g[0]);
                assert(s@[i + 1] == g[1]);
            }
        }
        if s[i] != '[' || i + 1 >= n {
            return None;
        }
        let next: usize;
        let ghost step: Step;
        if s[i + 1] == '\'' {
            let start = i + 2;
            proof {
                if tw is Some {
                    if let Step::Index(d) = rest[0] {
                        assert(g[1] == d[0]);
                    }
                    if let Step::Name(b) = rest[0] {
                        let e = start + b.len();
                        assert(g[2 + b.len() as int] == '\'');
                        assert(s@[e] == '\'');
                        assert(s@.subrange(start as int, e) =~= b) by {
                            assert forall|k: int| 0 <= k < b.len() implies s@[start + k] == b[k] by {
                                assert(g[2 + k] == b[k]);
                            }
                        }
                        assert(g[3 + b.len() as int] == ']');
                    }
                }
            }
            let j = match scan_name(&s, start) {
                Some(j) => j,
                None => {
                    return None;
                },
            };
            if j + 1 >= n || s[j + 1] != ']' {
                return None;
            }
            proof {
                step = Step::Name(s@.subrange(start as int, j as int));
            }
            if is_shorthand_exec(&s, start, j) {
                out.push('.');
                push_all(&mut out, &s, start, j);
            } else {
                push_all(&mut out, &s, i, j + 2);
            }
            assert(seq!['.'] + s@.subrange(start as int, j as int) =~= canonical_segment(step)
                || !is_shorthand(s@.subrange(start as int, j as int)));
            assert(s@.subrange(i as int, j + 2) =~= normalized_segment(step));
            next = j + 2;
        } else {
            let start = i + 1;
            proof {
                if tw is Some {
                    if let Step::Name(b) = rest[0] {
                        assert(g[1] == '\'');
                    }
                    if let Step::Index(d) = rest[0] {
                        assert(g[1 + d.len() as int] == ']');
                        assert forall|k: int| 0 <= k < d.len() implies s@[start + k] == d[k] by {
                            assert(g[1 + k] == d[k]);
                        }
                    }
                }
            }
            let j = scan_digits(&s, start);
            proof {
                if tw is Some {
                    if let Step::Index(d) = rest[0] {
                        if j < start + d.len() {
                            assert(s@[j as int] == d[j - start]);
                        }
                        if j > start + d.len() {
                            assert(is_digit(s@[start + d.len()]));
                        }
                    }
                }
            }
            if j == start || j >= n || s[j] != ']' {
                return None;
            }
            proof {
                step = Step::Index(s@.subrange(start as int, j as int));
                assert forall|k: int| 0 <= k < j - start implies is_digit(
                    #[trigger] s@.subrange(start as int, j as int)[k],
                ) by {
                    assert(s@.subrange(start as int, j as int)[k] == s@[start + k]);
                }
            }
            push_all(&mut out, &s, i, j + 1);
            assert(s@.subrange(i as int, j + 1) =~= normalized_segment(step));
            next = j + 1;
        }
        proof {
            let old_segs = segs;
            segs = segs.push(step);
            assert(segs.drop_last() =~= old_segs);
            lemma_steps_push(old_segs, step);
            assert(s@.subrange(0, next as int) =~= s@.subrange(0, i as int) + s@.subrange(
                i as int,
                next as int,
            ));
            assert(out@ =~= canonical_text(segs));
            assert(s@.subrange(0, next as int) =~= normalized_text(segs));
            if tw is Some {
                assert(normalized_segment(rest[0]) == normalized_segment(step));
                m = m + 1;
            }
        }
        i = next;
    }
    assert(s@.subrange(0, n as int) =~= raw@);
    proof {
        lemma_canonical_of_unique(raw@, out@);
    }
    Some(string_of(&out))
}

} // verus!
