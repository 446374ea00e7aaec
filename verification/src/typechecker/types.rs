//! The typechecker's table of types. A type is known by its index in the
//! table; unions and functions refer to types that come before them, so
//! every walk through the table ends.
use vstd::prelude::*;
use vstd::relations::{sorted_by, total_ordering};
use vstd::string::StringExecFns;

verus! {

pub const NULL: usize = 0;

pub const NUMBER: usize = 1;

pub const STRING: usize = 2;

pub const TRUE: usize = 3;

pub const FALSE: usize = 4;

pub const BOOLEAN: usize = 5;

pub const ANY: usize = 6;

pub const NEVER: usize = 7;

pub const NUMBER_OR_STRING: usize = 8;

/// A type: one of the primitive types, a union of types, or a function
/// from parameter types to a return type.
#[derive(Debug)]
pub enum Type {
    String,
    Number,
    True,
    False,
    Null,
    Any,
    Never,
    Union(Vec<usize>),
    Function(usize, Vec<usize>),
}

/// The types that `t` refers to all come before index `i`.
pub open spec fn refers_below(t: Type, i: int) -> bool {
    match t {
        Type::Union(parts) => forall|k: int| 0 <= k < parts@.len() ==> #[trigger] parts@[k] < i,
        Type::Function(r, args) => r < i && forall|k: int|
            0 <= k < args@.len() ==> #[trigger] args@[k] < i,
        _ => true,
    }
}

/// A union of exactly the parts `p`.
pub open spec fn is_union_of(t: Type, p: Seq<usize>) -> bool {
    t matches Type::Union(parts) && parts@ == p
}

/// A table of types: the primitive types and the two built-in unions at
/// their fixed indices, and every type refers only to types before it.
pub open spec fn table_ok(types: Seq<Type>) -> bool {
    &&& types.len() >= 9
    &&& types[NULL as int] is Null
    &&& types[NUMBER as int] is Number
    &&& types[STRING as int] is String
    &&& types[TRUE as int] is True
    &&& types[FALSE as int] is False
    &&& is_union_of(types[BOOLEAN as int], seq![TRUE, FALSE])
    &&& types[ANY as int] is Any
    &&& types[NEVER as int] is Never
    &&& is_union_of(types[NUMBER_OR_STRING as int], seq![STRING, NUMBER])
    &&& forall|i: int| 0 <= i < types.len() ==> refers_below(#[trigger] types[i], i)
}

/// Whether a value of type `a` may stand where type `b` is expected.
pub open spec fn fits(types: Seq<Type>, a: nat, b: nat) -> bool
    decreases a + b, 1nat, 0nat,
{
    if a >= types.len() || b >= types.len() {
        false
    } else if types[b as int] is Any {
        true
    } else if types[b as int] is Never {
        false
    } else {
        match types[a as int] {
            Type::Union(pa) => match types[b as int] {
                Type::Union(_) => all_match(types, pa@, a, b, pa@.len()),
                _ => pa@.len() == 1 && pa@[0] < a && fits(types, pa@[0] as nat, b),
            },
            Type::Function(ra, aa) => match types[b as int] {
                Type::Union(pb) => any_match(types, a, pb@, b, pb@.len()),
                Type::Function(rb, ba) => ra < a && rb < b && fits(types, ra as nat, rb as nat)
                    && aa@.len() == ba@.len() && args_match(types, aa@, ba@, a, b, aa@.len()),
                _ => false,
            },
            _ => match types[b as int] {
                Type::Union(pb) => any_match(types, a, pb@, b, pb@.len()),
                _ => types[a as int] == types[b as int],
            },
        }
    }
}

/// Each of the first `k` parts of the union at `owner` matches `b`.
pub open spec fn all_match(types: Seq<Type>, parts: Seq<usize>, owner: nat, b: nat, k: nat) -> bool
    decreases owner + b, 0nat, k,
{
    if k == 0 {
        true
    } else {
        all_match(types, parts, owner, b, (k - 1) as nat) && parts[k - 1] < owner && fits(
            types,
            parts[k - 1] as nat,
            b,
        )
    }
}

/// `a` matches one of the first `k` parts of the union at `owner`.
pub open spec fn any_match(types: Seq<Type>, a: nat, parts: Seq<usize>, owner: nat, k: nat) -> bool
    decreases a + owner, 0nat, k,
{
    if k == 0 {
        false
    } else {
        any_match(types, a, parts, owner, (k - 1) as nat) || (parts[k - 1] < owner && fits(
            types,
            a,
            parts[k - 1] as nat,
        ))
    }
}

/// Each of the first `k` parameters of the function at `b` matches the
/// parameter of the function at `a` in the same place.
pub open spec fn args_match(
    types: Seq<Type>,
    aa: Seq<usize>,
    ba: Seq<usize>,
    a: nat,
    b: nat,
    k: nat,
) -> bool
    decreases a + b, 0nat, k,
{
    if k == 0 {
        true
    } else {
        args_match(types, aa, ba, a, b, (k - 1) as nat) && aa[k - 1] < a && ba[k - 1] < b
            && fits(types, ba[k - 1] as nat, aa[k - 1] as nat)
    }
}

/// The sequence without elements equal to the one before them.
pub open spec fn dedup(s: Seq<usize>) -> Seq<usize>
    decreases s.len(),
{
    if s.len() <= 1 {
        s
    } else {
        let d = dedup(s.subrange(0, s.len() - 1));
        if s[s.len() - 1] == s[s.len() - 2] {
            d
        } else {
            d.push(s[s.len() - 1])
        }
    }
}

/// The types that `t` stands for: the flattened members of a union, or `t`
/// itself.
pub open spec fn flatten(types: Seq<Type>, t: nat) -> Seq<usize>
    decreases 2 * t + 2, 0nat,
{
    if t < types.len() && types[t as int] is Union {
        dedup(flat_members(types, types[t as int]->Union_0@, t, types[t as int]->Union_0@.len()))
    } else {
        seq![t as usize]
    }
}

/// The flattened members of the first `k` of `parts`, one after another
/// (only parts below `bound` count).
pub open spec fn flat_members(types: Seq<Type>, parts: Seq<usize>, bound: nat, k: nat) -> Seq<
    usize,
>
    decreases 2 * bound + 1, k,
{
    if k == 0 {
        Seq::empty()
    } else {
        flat_members(types, parts, bound, (k - 1) as nat) + if parts[k - 1] < bound {
            flatten(types, parts[k - 1] as nat)
        } else {
            Seq::empty()
        }
    }
}

/// The members of a union made of `parts`.
pub open spec fn union_members(types: Seq<Type>, parts: Seq<usize>) -> Seq<usize> {
    dedup(flat_members(types, parts, types.len(), parts.len()))
}

/// Every type in `s` is `true` or a function.
pub open spec fn all_truthy(types: Seq<Type>, s: Seq<usize>) -> bool {
    forall|i: int|
        0 <= i < s.len() ==> s[i] < types.len() && (#[trigger] types[s[i] as int] is True
            || types[s[i] as int] is Function)
}

/// Every type in `s` is `false` or `null`.
pub open spec fn all_falsy(types: Seq<Type>, s: Seq<usize>) -> bool {
    forall|i: int|
        0 <= i < s.len() ==> s[i] < types.len() && (#[trigger] types[s[i] as int] is False
            || types[s[i] as int] is Null)
}

/// A value of the type is always truthy.
pub open spec fn is_truthy(types: Seq<Type>, t: nat) -> bool {
    all_truthy(types, flatten(types, t))
}

/// A value of the type is always falsy.
pub open spec fn is_falsy(types: Seq<Type>, t: nat) -> bool {
    all_falsy(types, flatten(types, t))
}

/// `true` and `false` widened to `boolean`.
pub open spec fn uplevel(t: usize) -> usize {
    if t == TRUE || t == FALSE {
        BOOLEAN
    } else {
        t
    }
}

/// The members of `a` that do not match `b`.
pub open spec fn narrowed(types: Seq<Type>, a: nat, b: nat) -> Seq<usize> {
    flatten(types, a).filter(|t: usize| !fits(types, t as nat, b))
}

/// The table grew by one union of exactly `parts`.
pub open spec fn grown_by_union(old: Seq<Type>, new: Seq<Type>, parts: Seq<usize>) -> bool {
    &&& new.len() == old.len() + 1
    &&& new.subrange(0, old.len() as int) == old
    &&& is_union_of(new[old.len() as int], parts)
}

/// What a list of member types comes to: `never` for none, the type itself
/// for one, a new union (at the end of the table) for more.
pub open spec fn typed_as_list(old: Seq<Type>, new: Seq<Type>, members: Seq<usize>, r: usize) -> bool {
    if members.len() == 0 {
        new == old && r == NEVER
    } else if members.len() == 1 {
        new == old && r == members[0]
    } else {
        grown_by_union(old, new, members) && r == old.len()
    }
}

// ---------------------------------------------------------------------
// Names
// ---------------------------------------------------------------------

/// Texts in lexicographic order of their characters, as `String`'s `Ord`
/// orders them (UTF-8 keeps the order of code points).
pub open spec fn text_leq(a: Seq<char>, b: Seq<char>) -> bool
    decreases a.len(),
{
    if a.len() == 0 {
        true
    } else if b.len() == 0 {
        false
    } else if a[0] != b[0] {
        a[0] < b[0]
    } else {
        text_leq(a.subrange(1, a.len() as int), b.subrange(1, b.len() as int))
    }
}

pub open spec fn text_order() -> spec_fn(Seq<char>, Seq<char>) -> bool {
    |a: Seq<char>, b: Seq<char>| text_leq(a, b)
}

/// The texts with `sep` between each two.
pub open spec fn join(s: Seq<Seq<char>>, sep: Seq<char>) -> Seq<char>
    decreases s.len(),
{
    if s.len() == 0 {
        Seq::empty()
    } else if s.len() == 1 {
        s[0]
    } else {
        join(s.subrange(0, s.len() - 1), sep) + sep + s[s.len() - 1]
    }
}

/// How a type is written in messages: unions and parameter lists with
/// their members sorted.
pub open spec fn name_of_type(types: Seq<Type>, t: nat) -> Seq<char>
    decreases 2 * t + 2, 0nat,
{
    if t >= types.len() {
        Seq::empty()
    } else {
        match types[t as int] {
            Type::String => "string"@,
            Type::Number => "number"@,
            Type::True => "true"@,
            Type::False => "false"@,
            Type::Null => "null"@,
            Type::Any => "any"@,
            Type::Never => "never"@,
            Type::Union(parts) => join(
                names_of_types(types, parts@, t, parts@.len()).sort_by(text_order()),
                " | "@,
            ),
            Type::Function(r, args) => "("@ + join(
                names_of_types(types, args@, t, args@.len()).sort_by(text_order()),
                ", "@,
            ) + ") -> "@ + if r < t {
                name_of_type(types, r as nat)
            } else {
                Seq::empty()
            },
        }
    }
}

/// The names of the first `k` of `parts` (only parts below `bound` count).
pub open spec fn names_of_types(types: Seq<Type>, parts: Seq<usize>, bound: nat, k: nat) -> Seq<
    Seq<char>,
>
    decreases 2 * bound + 1, k,
{
    if k == 0 {
        Seq::empty()
    } else {
        names_of_types(types, parts, bound, (k - 1) as nat).push(
            if parts[k - 1] < bound {
                name_of_type(types, parts[k - 1] as nat)
            } else {
                Seq::empty()
            },
        )
    }
}

// ---------------------------------------------------------------------
// Facts
// ---------------------------------------------------------------------

proof fn lemma_text_leq_reflexive(a: Seq<char>)
    ensures
        text_leq(a, a),
    decreases a.len(),
{
    if a.len() > 0 {
        lemma_text_leq_reflexive(a.subrange(1, a.len() as int));
    }
}

proof fn lemma_text_leq_antisymmetric(a: Seq<char>, b: Seq<char>)
    requires
        text_leq(a, b),
        text_leq(b, a),
    ensures
        a == b,
    decreases a.len(),
{
    if a.len() > 0 && b.len() > 0 {
        lemma_text_leq_antisymmetric(a.subrange(1, a.len() as int), b.subrange(1, b.len() as int));
        assert(a =~= seq![a[0]] + a.subrange(1, a.len() as int));
        assert(b =~= seq![b[0]] + b.subrange(1, b.len() as int));
    }
}

proof fn lemma_text_leq_transitive(a: Seq<char>, b: Seq<char>, c: Seq<char>)
    requires
        text_leq(a, b),
        text_leq(b, c),
    ensures
        text_leq(a, c),
    decreases a.len(),
{
    if a.len() > 0 && b.len() > 0 && c.len() > 0 && a[0] == b[0] && b[0] == c[0] {
        lemma_text_leq_transitive(
            a.subrange(1, a.len() as int),
            b.subrange(1, b.len() as int),
            c.subrange(1, c.len() as int),
        );
    }
}

proof fn lemma_text_leq_total(a: Seq<char>, b: Seq<char>)
    ensures
        text_leq(a, b) || text_leq(b, a),
    decreases a.len(),
{
    if a.len() > 0 && b.len() > 0 {
        if a[0] == b[0] {
            lemma_text_leq_total(a.subrange(1, a.len() as int), b.subrange(1, b.len() as int));
        } else {
            assert(a[0] < b[0] || b[0] < a[0]);
        }
    }
}

/// Texts are totally ordered by `text_leq`.
pub proof fn lemma_text_order_total()
    ensures
        total_ordering(text_order()),
{
    let r = text_order();
    assert forall|x: Seq<char>| #[trigger] r(x, x) by {
        lemma_text_leq_reflexive(x);
    }
    assert forall|x: Seq<char>, y: Seq<char>| #[trigger] r(x, y) && #[trigger] r(y, x) implies x
        == y by {
        lemma_text_leq_antisymmetric(x, y);
    }
    assert forall|x: Seq<char>, y: Seq<char>, z: Seq<char>| #[trigger] r(x, y) && #[trigger] r(
        y,
        z,
    ) implies r(x, z) by {
        lemma_text_leq_transitive(x, y, z);
    }
    assert forall|x: Seq<char>, y: Seq<char>| #[trigger] r(x, y) || #[trigger] r(y, x) by {
        lemma_text_leq_total(x, y);
    }
}

proof fn lemma_all_match_prefix(types: Seq<Type>, parts: Seq<usize>, owner: nat, b: nat, m: nat, n: nat)
    requires
        n <= m,
        all_match(types, parts, owner, b, m),
    ensures
        all_match(types, parts, owner, b, n),
    decreases m,
{
    if n < m {
        lemma_all_match_prefix(types, parts, owner, b, (m - 1) as nat, n);
    }
}

proof fn lemma_any_match_prefix(types: Seq<Type>, a: nat, parts: Seq<usize>, owner: nat, m: nat, n: nat)
    requires
        n <= m,
        any_match(types, a, parts, owner, n),
    ensures
        any_match(types, a, parts, owner, m),
    decreases m,
{
    if n < m {
        lemma_any_match_prefix(types, a, parts, owner, (m - 1) as nat, n);
    }
}

proof fn lemma_args_match_prefix(
    types: Seq<Type>,
    aa: Seq<usize>,
    ba: Seq<usize>,
    a: nat,
    b: nat,
    m: nat,
    n: nat,
)
    requires
        n <= m,
        args_match(types, aa, ba, a, b, m),
    ensures
        args_match(types, aa, ba, a, b, n),
    decreases m,
{
    if n < m {
        lemma_args_match_prefix(types, aa, ba, a, b, (m - 1) as nat, n);
    }
}

/// Every element of `dedup(s)` is an element of `s`.
proof fn lemma_dedup_subset(s: Seq<usize>)
    ensures
        forall|i: int| 0 <= i < dedup(s).len() ==> s.contains(#[trigger] dedup(s)[i]),
    decreases s.len(),
{
    if s.len() > 1 {
        let p = s.subrange(0, s.len() - 1);
        lemma_dedup_subset(p);
        assert forall|i: int| 0 <= i < dedup(s).len() implies s.contains(#[trigger] dedup(s)[i]) by {
            if i < dedup(p).len() {
                let j = choose|j: int| 0 <= j < p.len() && p[j] == dedup(p)[i];
                assert(s[j] == p[j]);
            } else {
                assert(s[s.len() - 1] == dedup(s)[i]);
            }
        }
    }
}

/// The types that `t` stands for come no later than `t`.
pub proof fn lemma_flatten_bound(types: Seq<Type>, t: nat)
    requires
        table_ok(types),
        t < types.len(),
    ensures
        forall|i: int| 0 <= i < flatten(types, t).len() ==> #[trigger] flatten(types, t)[i] <= t,
    decreases 2 * t + 2, 0nat,
{
    if types[t as int] is Union {
        let parts = types[t as int]->Union_0@;
        assert(refers_below(types[t as int], t as int));
        lemma_flat_members_bound(types, parts, t, parts.len());
        let m = flat_members(types, parts, t, parts.len());
        lemma_dedup_subset(m);
        assert forall|i: int| 0 <= i < flatten(types, t).len() implies #[trigger] flatten(types, t)[i] <= t by {
            assert(m.contains(flatten(types, t)[i]));
        }
    }
}

/// The flattened members of parts below `bound` come before `bound`.
pub proof fn lemma_flat_members_bound(types: Seq<Type>, parts: Seq<usize>, bound: nat, k: nat)
    requires
        table_ok(types),
        bound <= types.len(),
        k <= parts.len(),
    ensures
        forall|i: int| 0 <= i < flat_members(types, parts, bound, k).len() ==> #[trigger] flat_members(types, parts, bound, k)[i] < bound,
    decreases 2 * bound + 1, k,
{
    if k > 0 {
        lemma_flat_members_bound(types, parts, bound, (k - 1) as nat);
        if parts[k - 1] < bound {
            lemma_flatten_bound(types, parts[k - 1] as nat);
        }
        let prev = flat_members(types, parts, bound, (k - 1) as nat);
        let all = flat_members(types, parts, bound, k);
        assert forall|i: int| 0 <= i < all.len() implies #[trigger] all[i] < bound by {
            if i < prev.len() {
                assert(all[i] == prev[i]);
            } else {
                let f = flatten(types, parts[k - 1] as nat);
                assert(all[i] == f[i - prev.len()]);
            }
        }
    }
}

/// A type that refers only to types already in the table may be added.
pub proof fn lemma_push_ok(types: Seq<Type>, t: Type)
    requires
        table_ok(types),
        refers_below(t, types.len() as int),
    ensures
        table_ok(types.push(t)),
{
    let n = types.push(t);
    assert forall|i: int| 0 <= i < n.len() implies refers_below(#[trigger] n[i], i) by {
        if i < types.len() {
            assert(n[i] == types[i]);
            assert(refers_below(types[i], i));
        }
    }
}

// ---------------------------------------------------------------------
// Code
// ---------------------------------------------------------------------

/// The built-in types at the start of a table: `null`, `number`,
/// `string`, `true`, `false`, `boolean` (`true | false`), `any`, `never`
/// and `string | number`.
pub open spec fn builtin_table(t: Seq<Type>) -> bool {
    &&& t.len() >= 9
    &&& t[0] == Type::Null
    &&& t[1] == Type::Number
    &&& t[2] == Type::String
    &&& t[3] == Type::True
    &&& t[4] == Type::False
    &&& t[5] matches Type::Union(m) && m@ == seq![TRUE, FALSE]
    &&& t[6] == Type::Any
    &&& t[7] == Type::Never
    &&& t[8] matches Type::Union(m) && m@ == seq![STRING, NUMBER]
}

/// The table with only the built-in types.
pub fn builtin_types() -> (r: Vec<Type>)
    ensures
        table_ok(r@),
        r@.len() == 9,
        builtin_table(r@),
{
    let mut types: Vec<Type> = Vec::new();
    types.push(Type::Null);
    types.push(Type::Number);
    types.push(Type::String);
    types.push(Type::True);
    types.push(Type::False);
    let mut boolean: Vec<usize> = Vec::new();
    boolean.push(TRUE);
    boolean.push(FALSE);
    types.push(Type::Union(boolean));
    types.push(Type::Any);
    types.push(Type::Never);
    let mut number_or_string: Vec<usize> = Vec::new();
    number_or_string.push(STRING);
    number_or_string.push(NUMBER);
    types.push(Type::Union(number_or_string));
    proof {
        assert(boolean@ =~= seq![TRUE, FALSE]);
        assert(number_or_string@ =~= seq![STRING, NUMBER]);
        assert forall|i: int| 0 <= i < types@.len() implies refers_below(#[trigger] types@[i], i) by {
            if i == 5 {
                assert(types@[5] == Type::Union(boolean));
            }
            if i == 8 {
                assert(types@[8] == Type::Union(number_or_string));
            }
        }
    }
    types
}

/// Adds a type at the end of the table; its index.
pub fn add_type(types: &mut Vec<Type>, t: Type) -> (r: usize)
    requires
        table_ok(old(types)@),
        refers_below(t, old(types)@.len() as int),
    ensures
        final(types)@ == old(types)@.push(t),
        table_ok(final(types)@),
        r == old(types)@.len(),
{
    proof {
        lemma_push_ok(types@, t);
    }
    let index = types.len();
    types.push(t);
    index
}

/// Whether a value of type `a` may stand where type `b` is expected.
pub fn type_matches(types: &Vec<Type>, a: usize, b: usize) -> (r: bool)
    requires
        table_ok(types@),
        a < types@.len(),
        b < types@.len(),
    ensures
        r == fits(types@, a as nat, b as nat),
    decreases a + b, 1nat,
{
    let ghost ts = types@;
    proof {
        assert(refers_below(ts[a as int], a as int));
        assert(refers_below(ts[b as int], b as int));
    }
    match &types[b] {
        Type::Any => return true,
        Type::Never => return false,
        _ => {},
    }
    match &types[a] {
        Type::Union(pa) => {
            match &types[b] {
                Type::Union(_) => {
                    let mut k: usize = 0;
                    while k < pa.len()
                        invariant
                            ts == types@,
                            table_ok(ts),
                            a < ts.len(),
                            b < ts.len(),
                            forall|j: int| 0 <= j < pa@.len() ==> #[trigger] pa@[j] < a,
                            ts[a as int] == Type::Union(*pa),
                            ts[b as int] is Union,
                            k <= pa@.len(),
                            all_match(ts, pa@, a as nat, b as nat, k as nat),
                        decreases pa@.len() - k,
                    {
                        let part = pa[k];
                        assert(part < a);
                        if !type_matches(types, part, b) {
                            proof {
                                if all_match(ts, pa@, a as nat, b as nat, pa@.len()) {
                                    lemma_all_match_prefix(ts, pa@, a as nat, b as nat, pa@.len(), (k + 1) as nat);
                                }
                            }
                            return false;
                        }
                        k = k + 1;
                    }
                    true
                },
                _ => {
                    if pa.len() == 1 {
                        let part = pa[0];
                        assert(part < a);
                        type_matches(types, part, b)
                    } else {
                        false
                    }
                },
            }
        },
        Type::Function(ra, aa) => {
            match &types[b] {
                Type::Union(pb) => {
                    let mut k: usize = 0;
                    while k < pb.len()
                        invariant
                            ts == types@,
                            table_ok(ts),
                            a < ts.len(),
                            b < ts.len(),
                            forall|j: int| 0 <= j < pb@.len() ==> #[trigger] pb@[j] < b,
                            ts[a as int] is Function,
                            ts[b as int] == Type::Union(*pb),
                            k <= pb@.len(),
                            !any_match(ts, a as nat, pb@, b as nat, k as nat),
                        decreases pb@.len() - k,
                    {
                        let part = pb[k];
                        assert(part < b);
                        if type_matches(types, a, part) {
                            proof {
                                lemma_any_match_prefix(ts, a as nat, pb@, b as nat, pb@.len(), (k + 1) as nat);
                            }
                            return true;
                        }
                        k = k + 1;
                    }
                    false
                },
                Type::Function(rb, ba) => {
                    if !type_matches(types, *ra, *rb) {
                        return false;
                    }
                    if aa.len() != ba.len() {
                        return false;
                    }
                    let mut k: usize = 0;
                    while k < aa.len()
                        invariant
                            ts == types@,
                            table_ok(ts),
                            a < ts.len(),
                            b < ts.len(),
                            forall|j: int| 0 <= j < aa@.len() ==> #[trigger] aa@[j] < a,
                            forall|j: int| 0 <= j < ba@.len() ==> #[trigger] ba@[j] < b,
                            ts[a as int] == Type::Function(*ra, *aa),
                            ts[b as int] == Type::Function(*rb, *ba),
                            fits(ts, *ra as nat, *rb as nat),
                            *ra < a,
                            *rb < b,
                            aa@.len() == ba@.len(),
                            k <= aa@.len(),
                            args_match(ts, aa@, ba@, a as nat, b as nat, k as nat),
                        decreases aa@.len() - k,
                    {
                        let x = aa[k];
                        let y = ba[k];
                        assert(x < a && y < b);
                        if !type_matches(types, y, x) {
                            proof {
                                if args_match(ts, aa@, ba@, a as nat, b as nat, aa@.len()) {
                                    lemma_args_match_prefix(ts, aa@, ba@, a as nat, b as nat, aa@.len(), (k + 1) as nat);
                                }
                            }
                            return false;
                        }
                        k = k + 1;
                    }
                    true
                },
                _ => false,
            }
        },
        _ => {
            match &types[b] {
                Type::Union(pb) => {
                    let mut k: usize = 0;
                    while k < pb.len()
                        invariant
                            ts == types@,
                            table_ok(ts),
                            a < ts.len(),
                            b < ts.len(),
                            forall|j: int| 0 <= j < pb@.len() ==> #[trigger] pb@[j] < b,
                            !(ts[a as int] is Function),
                            !(ts[a as int] is Union),
                            ts[b as int] == Type::Union(*pb),
                            k <= pb@.len(),
                            !any_match(ts, a as nat, pb@, b as nat, k as nat),
                        decreases pb@.len() - k,
                    {
                        let part = pb[k];
                        assert(part < b);
                        if type_matches(types, a, part) {
                            proof {
                                lemma_any_match_prefix(ts, a as nat, pb@, b as nat, pb@.len(), (k + 1) as nat);
                            }
                            return true;
                        }
                        k = k + 1;
                    }
                    false
                },
                _ => same_primitive(&types[a], &types[b]),
            }
        },
    }
}

/// Whether two types that are neither unions nor both functions are equal.
fn same_primitive(a: &Type, b: &Type) -> (r: bool)
    requires
        !(a is Union),
        !(b is Union),
        !(a is Function && b is Function),
    ensures
        r == (*a == *b),
{
    match (a, b) {
        (Type::String, Type::String) => true,
        (Type::Number, Type::Number) => true,
        (Type::True, Type::True) => true,
        (Type::False, Type::False) => true,
        (Type::Null, Type::Null) => true,
        (Type::Any, Type::Any) => true,
        (Type::Never, Type::Never) => true,
        _ => false,
    }
}

/// `dedup` as a loop.
fn dedup_vec(v: &Vec<usize>) -> (r: Vec<usize>)
    ensures
        r@ == dedup(v@),
{
    let mut r: Vec<usize> = Vec::new();
    let mut i: usize = 0;
    while i < v.len()
        invariant
            i <= v@.len(),
            r@ == dedup(v@.subrange(0, i as int)),
        decreases v@.len() - i,
    {
        let ghost p = v@.subrange(0, i as int);
        let ghost q = v@.subrange(0, i + 1);
        assert(q.subrange(0, i as int) =~= p);
        if i == 0 || v[i] != v[i - 1] {
            r.push(v[i]);
            proof {
                if i == 0 {
                    assert(q =~= seq![v@[0]]);
                }
            }
        }
        i = i + 1;
    }
    assert(v@.subrange(0, v@.len() as int) =~= v@);
    r
}

/// The types that `t` stands for: the flattened members of a union, or `t`
/// itself.
pub fn flatten_type(types: &Vec<Type>, t: usize) -> (r: Vec<usize>)
    requires
        table_ok(types@),
        t < types@.len(),
    ensures
        r@ == flatten(types@, t as nat),
        forall|i: int| 0 <= i < r@.len() ==> #[trigger] r@[i] <= t,
    decreases 2 * t + 2, 0nat,
{
    proof {
        lemma_flatten_bound(types@, t as nat);
        assert(refers_below(types@[t as int], t as int));
    }
    match &types[t] {
        Type::Union(parts) => {
            let members = flatten_members(types, parts, t);
            dedup_vec(&members)
        },
        _ => {
            let mut r: Vec<usize> = Vec::new();
            r.push(t);
            assert(r@ =~= seq![t]);
            r
        },
    }
}

/// The flattened members of `parts` below `bound`, one after another.
pub fn flatten_members(types: &Vec<Type>, parts: &Vec<usize>, bound: usize) -> (r: Vec<usize>)
    requires
        table_ok(types@),
        bound <= types@.len(),
    ensures
        r@ == flat_members(types@, parts@, bound as nat, parts@.len()),
    decreases 2 * bound + 1, 0nat,
{
    let mut r: Vec<usize> = Vec::new();
    let mut k: usize = 0;
    while k < parts.len()
        invariant
            table_ok(types@),
            bound <= types@.len(),
            k <= parts@.len(),
            r@ == flat_members(types@, parts@, bound as nat, k as nat),
        decreases parts@.len() - k,
    {
        let p = parts[k];
        if p < bound {
            let mut f = flatten_type(types, p);
            r.append(&mut f);
        } else {
            assert(r@ =~= r@ + Seq::<usize>::empty());
        }
        k = k + 1;
    }
    r
}

/// A value of the type is always truthy.
pub fn type_is_truthy(types: &Vec<Type>, t: usize) -> (r: bool)
    requires
        table_ok(types@),
        t < types@.len(),
    ensures
        r == is_truthy(types@, t as nat),
{
    let f = flatten_type(types, t);
    let mut i: usize = 0;
    while i < f.len()
        invariant
            f@ == flatten(types@, t as nat),
            t < types@.len(),
            forall|j: int| 0 <= j < f@.len() ==> #[trigger] f@[j] <= t,
            i <= f@.len(),
            forall|j: int| 0 <= j < i ==> (#[trigger] types@[f@[j] as int] is True || types@[f@[j] as int] is Function),
        decreases f@.len() - i,
    {
        let ok = match &types[f[i]] {
            Type::True | Type::Function(_, _) => true,
            _ => false,
        };
        if !ok {
            return false;
        }
        i = i + 1;
    }
    true
}

/// A value of the type is always falsy.
pub fn type_is_falsy(types: &Vec<Type>, t: usize) -> (r: bool)
    requires
        table_ok(types@),
        t < types@.len(),
    ensures
        r == is_falsy(types@, t as nat),
{
    let f = flatten_type(types, t);
    let mut i: usize = 0;
    while i < f.len()
        invariant
            f@ == flatten(types@, t as nat),
            t < types@.len(),
            forall|j: int| 0 <= j < f@.len() ==> #[trigger] f@[j] <= t,
            i <= f@.len(),
            forall|j: int| 0 <= j < i ==> (#[trigger] types@[f@[j] as int] is False || types@[f@[j] as int] is Null),
        decreases f@.len() - i,
    {
        let ok = match &types[f[i]] {
            Type::False | Type::Null => true,
            _ => false,
        };
        if !ok {
            return false;
        }
        i = i + 1;
    }
    true
}

/// `true` and `false` widened to `boolean`.
pub fn uplevel_type(t: usize) -> (r: usize)
    ensures
        r == uplevel(t),
{
    if t == TRUE || t == FALSE {
        BOOLEAN
    } else {
        t
    }
}

/// The type that a list of member types comes to.
fn type_of_members(types: &mut Vec<Type>, members: Vec<usize>) -> (r: usize)
    requires
        table_ok(old(types)@),
        forall|i: int| 0 <= i < members@.len() ==> #[trigger] members@[i] < old(types)@.len(),
    ensures
        typed_as_list(old(types)@, final(types)@, members@, r),
        table_ok(final(types)@),
        r < final(types)@.len(),
{
    let n = members.len();
    if n == 0 {
        NEVER
    } else if n == 1 {
        members[0]
    } else {
        let ghost m = members@;
        let ghost before = types@;
        let r = add_type(types, Type::Union(members));
        assert(types@.subrange(0, before.len() as int) =~= before);
        r
    }
}

/// The members of `a` that do not match `b`, as a type.
pub fn narrow(types: &mut Vec<Type>, a: usize, b: usize) -> (r: usize)
    requires
        table_ok(old(types)@),
        a < old(types)@.len(),
        b < old(types)@.len(),
    ensures
        typed_as_list(old(types)@, final(types)@, narrowed(old(types)@, a as nat, b as nat), r),
        table_ok(final(types)@),
        r < final(types)@.len(),
{
    let ghost ts = types@;
    let f = flatten_type(types, a);
    let mut kept: Vec<usize> = Vec::new();
    let mut i: usize = 0;
    while i < f.len()
        invariant
            ts == types@,
            table_ok(ts),
            b < ts.len(),
            a < ts.len(),
            f@ == flatten(ts, a as nat),
            forall|j: int| 0 <= j < f@.len() ==> #[trigger] f@[j] <= a,
            i <= f@.len(),
            kept@ == f@.subrange(0, i as int).filter(|t: usize| !fits(ts, t as nat, b as nat)),
        decreases f@.len() - i,
    {
        let t = f[i];
        let keep = !type_matches(types, t, b);
        proof {
            let p = f@.subrange(0, i as int);
            assert(f@.subrange(0, i + 1) =~= p.push(t));
            p.lemma_filter_push(t, |t: usize| !fits(ts, t as nat, b as nat));
        }
        if keep {
            kept.push(t);
        }
        i = i + 1;
    }
    proof {
        assert(f@.subrange(0, f@.len() as int) =~= f@);
        assert forall|j: int| 0 <= j < kept@.len() implies #[trigger] kept@[j] < ts.len() by {
            assert(kept@.contains(kept@[j]));
            f@.lemma_filter_contains_rev(|t: usize| !fits(ts, t as nat, b as nat), kept@[j]);
        }
    }
    type_of_members(types, kept)
}

/// What tells the members of a union that count: all but `never`.
pub open spec fn counts() -> spec_fn(usize) -> bool {
    |t: usize| t != NEVER
}

/// The members of a union that count.
pub open spec fn counted(ts: Seq<usize>) -> Seq<usize> {
    ts.filter(counts())
}

/// Adding `never` to the members of a union, at any place, changes none of
/// the members that count, so `union_types` makes the same type of both.
pub proof fn law_union_ignores_never(ts: Seq<usize>, i: int)
    requires
        0 <= i <= ts.len(),
    ensures
        counted(ts.insert(i, NEVER)) == counted(ts),
{
    let a = ts.subrange(0, i);
    let b = ts.subrange(i, ts.len() as int);
    let n = seq![NEVER];
    assert(ts =~= a + b);
    assert(ts.insert(i, NEVER) =~= a + (n + b));
    Seq::filter_distributes_over_add(a, n + b, counts());
    Seq::filter_distributes_over_add(n, b, counts());
    Seq::filter_distributes_over_add(a, b, counts());
    Seq::<usize>::empty().lemma_filter_push(NEVER, counts());
    assert(Seq::<usize>::empty().push(NEVER) =~= n);
    reveal(Seq::filter);
    assert(Seq::<usize>::empty().filter(counts()) =~= Seq::<usize>::empty());
}

/// The union of the types, `never` left out.
pub fn union_types(types: &mut Vec<Type>, ts: &Vec<usize>) -> (r: usize)
    requires
        table_ok(old(types)@),
        forall|i: int| 0 <= i < ts@.len() ==> #[trigger] ts@[i] < old(types)@.len(),
    ensures
        ({
            let f = counted(ts@);
            if f.len() <= 1 {
                typed_as_list(old(types)@, final(types)@, f, r)
            } else {
                grown_by_union(old(types)@, final(types)@, union_members(old(types)@, f))
                    && r == old(types)@.len()
            }
        }),
        table_ok(final(types)@),
        r < final(types)@.len(),
{
    let ghost old_types = types@;
    let mut kept: Vec<usize> = Vec::new();
    let mut i: usize = 0;
    while i < ts.len()
        invariant
            i <= ts@.len(),
            kept@ == counted(ts@.subrange(0, i as int)),
        decreases ts@.len() - i,
    {
        let t = ts[i];
        proof {
            let p = ts@.subrange(0, i as int);
            assert(ts@.subrange(0, i + 1) =~= p.push(t));
            p.lemma_filter_push(t, counts());
        }
        if t != NEVER {
            kept.push(t);
        }
        i = i + 1;
    }
    proof {
        assert(ts@.subrange(0, ts@.len() as int) =~= ts@);
        assert forall|j: int| 0 <= j < kept@.len() implies #[trigger] kept@[j] < old_types.len() by {
            assert(kept@.contains(kept@[j]));
            ts@.lemma_filter_contains_rev(counts(), kept@[j]);
        }
    }
    if kept.len() <= 1 {
        type_of_members(types, kept)
    } else {
        let bound = types.len();
        let members = flatten_members(types, &kept, bound);
        let deduped = dedup_vec(&members);
        proof {
            lemma_flat_members_bound(old_types, kept@, bound as nat, kept@.len());
            lemma_dedup_subset(members@);
            assert forall|j: int| 0 <= j < deduped@.len() implies #[trigger] deduped@[j] < old_types.len() by {
                assert(members@.contains(deduped@[j]));
            }
        }
        let ghost d = deduped@;
        let r = add_type(types, Type::Union(deduped));
        proof {
            assert(types@.subrange(0, old_types.len() as int) =~= old_types);
        }
        r
    }
}

/// Sorts texts in the order of `String`'s `Ord`: `slice::sort`.
#[verifier::external_body]
fn sort_texts(v: &mut Vec<String>)
    ensures
        final(v)@.map_values(|s: String| s@).to_multiset() == old(v)@.map_values(|s: String| s@).to_multiset(),
        sorted_by(final(v)@.map_values(|s: String| s@), text_order()),
{
    v.sort();
}

/// Writes the texts with `sep` between each two.
fn write_joined(out: &mut String, items: &Vec<String>, sep: &str)
    ensures
        final(out)@ == old(out)@ + join(items@.map_values(|s: String| s@), sep@),
{
    let ghost t = items@.map_values(|s: String| s@);
    let mut i: usize = 0;
    while i < items.len()
        invariant
            t == items@.map_values(|s: String| s@),
            i <= items@.len(),
            out@ == old(out)@ + join(t.subrange(0, i as int), sep@),
        decreases items@.len() - i,
    {
        proof {
            assert(t.subrange(0, i + 1).subrange(0, i as int) =~= t.subrange(0, i as int));
            if i == 0 {
                assert(t.subrange(0, 1) =~= seq![t[0]]);
            }
        }
        if i > 0 {
            out.append(sep);
        }
        out.append(items[i].as_str());
        i = i + 1;
        assert(out@ =~= old(out)@ + join(t.subrange(0, i as int), sep@));
    }
    assert(t.subrange(0, items@.len() as int) =~= t);
}

/// The names of `parts` below `bound`, sorted.
fn sorted_names(types: &Vec<Type>, parts: &Vec<usize>, bound: usize) -> (r: Vec<String>)
    requires
        table_ok(types@),
        bound <= types@.len(),
    ensures
        r@.map_values(|s: String| s@) == names_of_types(types@, parts@, bound as nat, parts@.len()).sort_by(text_order()),
    decreases 2 * bound + 1, 0nat,
{
    let mut names: Vec<String> = Vec::new();
    let mut k: usize = 0;
    while k < parts.len()
        invariant
            table_ok(types@),
            bound <= types@.len(),
            k <= parts@.len(),
            names@.map_values(|s: String| s@) == names_of_types(types@, parts@, bound as nat, k as nat),
        decreases parts@.len() - k,
    {
        let p = parts[k];
        let name = if p < bound {
            type_name_text(types, p)
        } else {
            String::from_str("")
        };
        proof {
            if p >= bound {
                reveal_strlit("");
            }
        }
        let ghost before = names@;
        let ghost nv = name@;
        names.push(name);
        proof {
            if p >= bound {
                assert(nv =~= Seq::<char>::empty());
            }
            assert(names@ =~= before.push(name));
            assert(names@.map_values(|s: String| s@) =~= before.map_values(|s: String| s@).push(nv));
            assert(names_of_types(types@, parts@, bound as nat, (k + 1) as nat) == names_of_types(types@, parts@, bound as nat, k as nat).push(nv));
        }
        k = k + 1;
    }
    let ghost unsorted = names@.map_values(|s: String| s@);
    sort_texts(&mut names);
    proof {
        lemma_text_order_total();
        unsorted.lemma_sort_by_ensures(text_order());
        vstd::seq_lib::lemma_sorted_unique(
            names@.map_values(|s: String| s@),
            unsorted.sort_by(text_order()),
            text_order(),
        );
    }
    names
}

/// How a type is written in messages.
pub fn type_name_text(types: &Vec<Type>, t: usize) -> (r: String)
    requires
        table_ok(types@),
        t < types@.len(),
    ensures
        r@ == name_of_type(types@, t as nat),
    decreases 2 * t + 2, 0nat,
{
    proof {
        assert(refers_below(types@[t as int], t as int));
    }
    match &types[t] {
        Type::String => String::from_str("string"),
        Type::Number => String::from_str("number"),
        Type::True => String::from_str("true"),
        Type::False => String::from_str("false"),
        Type::Null => String::from_str("null"),
        Type::Any => String::from_str("any"),
        Type::Never => String::from_str("never"),
        Type::Union(parts) => {
            let names = sorted_names(types, parts, t);
            let mut out = String::from_str("");
            proof {
                reveal_strlit("");
            }
            write_joined(&mut out, &names, " | ");
            assert(out@ =~= name_of_type(types@, t as nat));
            out
        },
        Type::Function(r, args) => {
            let names = sorted_names(types, args, t);
            let mut out = String::from_str("(");
            write_joined(&mut out, &names, ", ");
            out.append(") -> ");
            let return_name = type_name_text(types, *r);
            out.append(return_name.as_str());
            assert(out@ =~= name_of_type(types@, t as nat));
            out
        },
    }
}

} // verus!
