//! Path arithmetic shared by the aggregation engines: splitting a path
//! into `/`-delimited components, joining components back, the longest
//! common component prefix of two paths, and the parent directory of a
//! path.
use vstd::prelude::*;

verus! {

/// True when the string holds no path separator.
pub open spec fn no_slash(s: Seq<char>) -> bool {
    forall|i: int| 0 <= i < s.len() ==> s[i] != '/'
}

/// The `/`-delimited components of a path. Splitting never yields an
/// empty sequence: the empty string has the single empty component.
pub open spec fn split_path(s: Seq<char>) -> Seq<Seq<char>>
    decreases s.len(),
{
    if s.len() == 0 {
        seq![Seq::<char>::empty()]
    } else if s[0] == '/' {
        seq![Seq::<char>::empty()] + split_path(s.drop_first())
    } else {
        let rest = split_path(s.drop_first());
        seq![seq![s[0]] + rest[0]] + rest.drop_first()
    }
}

/// Components joined with a single separator between neighbours.
pub open spec fn join_path(parts: Seq<Seq<char>>) -> Seq<char>
    decreases parts.len(),
{
    if parts.len() == 0 {
        Seq::empty()
    } else if parts.len() == 1 {
        parts[0]
    } else {
        parts[0] + seq!['/'] + join_path(parts.drop_first())
    }
}

/// The longest common prefix of two component sequences.
pub open spec fn common_parts(a: Seq<Seq<char>>, b: Seq<Seq<char>>) -> Seq<Seq<char>>
    decreases a.len(),
{
    if a.len() == 0 || b.len() == 0 || a[0] != b[0] {
        Seq::empty()
    } else {
        seq![a[0]] + common_parts(a.drop_first(), b.drop_first())
    }
}

/// The longest common `/`-delimited component prefix of two paths:
/// split both, keep the components before the first mismatch, join.
pub open spec fn common_prefix(x: Seq<char>, y: Seq<char>) -> Seq<char> {
    join_path(common_parts(split_path(x), split_path(y)))
}

/// The index of the last separator in the string, or -1 when it has
/// none.
pub open spec fn last_slash(s: Seq<char>) -> int
    decreases s.len(),
{
    if s.len() == 0 {
        -1
    } else if s[s.len() - 1] == '/' {
        s.len() - 1
    } else {
        last_slash(s.drop_last())
    }
}

/// The text before the last separator, or the whole string when it has
/// none.
pub open spec fn dirname_spec(s: Seq<char>) -> Seq<char> {
    if last_slash(s) >= 0 {
        s.take(last_slash(s))
    } else {
        s
    }
}

/// Splitting always yields at least one component.
pub proof fn lemma_split_path_nonempty(s: Seq<char>)
    ensures
        split_path(s).len() >= 1,
    decreases s.len(),
{
    if s.len() > 0 {
        lemma_split_path_nonempty(s.drop_first());
    }
}

/// A string without separators is its own single component.
pub proof fn lemma_split_no_slash(s: Seq<char>)
    requires
        no_slash(s),
    ensures
        split_path(s) == seq![s],
    decreases s.len(),
{
    if s.len() == 0 {
        assert(split_path(s) =~~= seq![s]);
    } else {
        assert(s[0] != '/');
        assert(no_slash(s.drop_first()));
        lemma_split_no_slash(s.drop_first());
        let rest = split_path(s.drop_first());
        assert(rest == seq![s.drop_first()]);
        assert(seq![s[0]] + s.drop_first() =~= s);
        assert(rest.drop_first() =~= Seq::<Seq<char>>::empty());
        assert(split_path(s) =~= seq![s]);
    }
}

/// Splitting a path that starts with a separator-free component yields
/// that component followed by the split of the rest.
pub proof fn lemma_split_first_component(pre: Seq<char>, rest: Seq<char>)
    requires
        no_slash(pre),
    ensures
        split_path(pre + seq!['/'] + rest) == seq![pre] + split_path(rest),
    decreases pre.len(),
{
    let s = pre + seq!['/'] + rest;
    if pre.len() == 0 {
        assert(s[0] == '/');
        assert(s.drop_first() =~= rest);
        assert(split_path(s) =~~= seq![pre] + split_path(rest));
    } else {
        assert(s[0] == pre[0]);
        assert(s[0] != '/');
        assert(s.drop_first() =~= pre.drop_first() + seq!['/'] + rest);
        assert(no_slash(pre.drop_first()));
        lemma_split_first_component(pre.drop_first(), rest);
        let r = split_path(s.drop_first());
        assert(r == seq![pre.drop_first()] + split_path(rest));
        lemma_split_path_nonempty(rest);
        assert(r[0] == pre.drop_first());
        assert(seq![s[0]] + r[0] =~= pre);
        assert(r.drop_first() =~= split_path(rest));
        assert(split_path(s) =~= seq![pre] + split_path(rest));
    }
}

/// Joining the split of a path gives the path back.
pub proof fn lemma_join_split(s: Seq<char>)
    ensures
        join_path(split_path(s)) == s,
    decreases s.len(),
{
    if s.len() == 0 {
        assert(join_path(split_path(s)) =~= s);
    } else if s[0] == '/' {
        lemma_join_split(s.drop_first());
        lemma_split_path_nonempty(s.drop_first());
        let parts = split_path(s);
        assert(parts.len() >= 2);
        assert(parts[0] =~= Seq::<char>::empty());
        assert(parts.drop_first() =~= split_path(s.drop_first()));
        assert(join_path(parts) =~= s);
    } else {
        lemma_join_split(s.drop_first());
        lemma_split_path_nonempty(s.drop_first());
        let r = split_path(s.drop_first());
        let parts = split_path(s);
        if r.len() == 1 {
            assert(join_path(r) == r[0]);
            assert(parts =~= seq![seq![s[0]] + r[0]]);
            assert(join_path(parts) == seq![s[0]] + r[0]);
            assert(seq![s[0]] + r[0] =~= s);
        } else {
            assert(parts.len() >= 2);
            assert(parts[0] == seq![s[0]] + r[0]);
            assert(parts.drop_first() =~= r.drop_first());
            assert(join_path(parts) == (seq![s[0]] + r[0]) + seq!['/'] + join_path(
                r.drop_first(),
            ));
            assert(join_path(r) == r[0] + seq!['/'] + join_path(r.drop_first()));
            assert(join_path(r) =~= s.drop_first());
            assert((seq![s[0]] + r[0]) + seq!['/'] + join_path(r.drop_first()) =~= seq![s[0]]
                + (r[0] + seq!['/'] + join_path(r.drop_first())));
            assert(seq![s[0]] + s.drop_first() =~= s);
        }
    }
}

/// The common component prefix does not depend on the order of its
/// arguments.
pub proof fn lemma_common_parts_symmetric(a: Seq<Seq<char>>, b: Seq<Seq<char>>)
    ensures
        common_parts(a, b) == common_parts(b, a),
    decreases a.len(),
{
    if !(a.len() == 0 || b.len() == 0 || a[0] != b[0]) {
        lemma_common_parts_symmetric(a.drop_first(), b.drop_first());
    }
}

/// The common prefix of two paths is the same in either order.
pub proof fn lemma_common_prefix_symmetric(x: Seq<char>, y: Seq<char>)
    ensures
        common_prefix(x, y) == common_prefix(y, x),
{
    lemma_common_parts_symmetric(split_path(x), split_path(y));
}

/// A component sequence is its own common prefix.
pub proof fn lemma_common_parts_self(a: Seq<Seq<char>>)
    ensures
        common_parts(a, a) == a,
    decreases a.len(),
{
    if a.len() > 0 {
        lemma_common_parts_self(a.drop_first());
        assert(common_parts(a, a) =~= a);
    } else {
        assert(common_parts(a, a) =~= a);
    }
}

/// The common prefix of a path with itself is the path.
pub proof fn lemma_common_prefix_self(x: Seq<char>)
    ensures
        common_prefix(x, x) == x,
{
    lemma_common_parts_self(split_path(x));
    lemma_join_split(x);
}

/// The common prefix of the empty path with any path is empty.
pub proof fn lemma_common_prefix_empty(y: Seq<char>)
    ensures
        common_prefix(Seq::<char>::empty(), y) == Seq::<char>::empty(),
{
    let e = Seq::<char>::empty();
    assert(split_path(e) =~= seq![e]);
    let sy = split_path(y);
    lemma_split_path_nonempty(y);
    let cp = common_parts(seq![e], sy);
    if sy[0] == e {
        assert(seq![e].drop_first() =~= Seq::<Seq<char>>::empty());
        assert(common_parts(seq![e].drop_first(), sy.drop_first()) =~= Seq::<Seq<char>>::empty());
        assert(cp =~= seq![e]);
        assert(join_path(cp) =~= e);
    } else {
        assert(cp =~= Seq::<Seq<char>>::empty());
        assert(join_path(cp) =~= e);
    }
}

/// When the first `k` components agree and position `k` (if both sides
/// have one) disagrees, the common prefix is exactly the first `k`
/// components.
pub proof fn lemma_common_parts_prefix(a: Seq<Seq<char>>, b: Seq<Seq<char>>, k: int)
    requires
        0 <= k <= a.len(),
        k <= b.len(),
        forall|j: int| 0 <= j < k ==> a[j] == b[j],
        k == a.len() || k == b.len() || a[k] != b[k],
    ensures
        common_parts(a, b) == a.take(k),
    decreases k,
{
    if k == 0 {
        assert(common_parts(a, b) =~= a.take(0));
    } else {
        assert(a[0] == b[0]);
        lemma_common_parts_prefix(a.drop_first(), b.drop_first(), k - 1);
        assert(a.drop_first().take(k - 1) =~= a.take(k).drop_first());
        assert(common_parts(a, b) =~= a.take(k));
    }
}


/// The separator found at `k`, with none after it, is the last one.
proof fn lemma_last_slash_at(s: Seq<char>, k: int)
    requires
        0 <= k < s.len(),
        s[k] == '/',
        forall|j: int| k < j < s.len() ==> s[j] != '/',
    ensures
        last_slash(s) == k,
    decreases s.len(),
{
    if k < s.len() - 1 {
        assert(s[s.len() - 1] != '/');
        assert(forall|j: int| k < j < s.drop_last().len() ==> s.drop_last()[j] != '/');
        lemma_last_slash_at(s.drop_last(), k);
    }
}

/// A string without separators has no last separator.
proof fn lemma_last_slash_none(s: Seq<char>)
    requires
        no_slash(s),
    ensures
        last_slash(s) == -1,
    decreases s.len(),
{
    if s.len() > 0 {
        assert(no_slash(s.drop_last()));
        lemma_last_slash_none(s.drop_last());
    }
}

/// The text before the last `/` of the path, or the whole path when it
/// holds none.
pub fn dirname(path: &str) -> (r: String)
    ensures
        r@ == dirname_spec(path@),
{
    let n = path.unicode_len();
    let mut i = n;
    while i > 0
        invariant
            i <= n,
            n == path@.len(),
            forall|j: int| i <= j < n ==> path@[j] != '/',
        decreases i,
    {
        if path.get_char(i - 1) == '/' {
            proof {
                lemma_last_slash_at(path@, i - 1);
                assert(path@.subrange(0, i - 1) =~= path@.take(i - 1));
            }
            return path.substring_char(0, i - 1).to_owned();
        }
        i = i - 1;
    }
    proof {
        lemma_last_slash_none(path@);
    }
    path.to_owned()
}

/// The parent directory of a path: the text before its last `/`, or the
/// path itself when it holds none. Agrees with [`dirname`] but borrows
/// from its argument.
pub fn parent_of(path: &str) -> (r: &str)
    ensures
        r@ == dirname_spec(path@),
{
    let n = path.unicode_len();
    let mut i = n;
    while i > 0
        invariant
            i <= n,
            n == path@.len(),
            forall|j: int| i <= j < n ==> path@[j] != '/',
        decreases i,
    {
        if path.get_char(i - 1) == '/' {
            proof {
                lemma_last_slash_at(path@, i - 1);
                assert(path@.subrange(0, i - 1) =~= path@.take(i - 1));
            }
            return path.substring_char(0, i - 1);
        }
        i = i - 1;
    }
    proof {
        lemma_last_slash_none(path@);
    }
    path
}

/// The views of a vector of path components.
pub open spec fn components_view(parts: Seq<String>) -> Seq<Seq<char>> {
    parts.map_values(|p: String| p@)
}

/// Splits a path into its `/`-delimited components.
fn split_components(s: &str) -> (parts: Vec<String>)
    ensures
        components_view(parts@) == split_path(s@),
{
    let n = s.unicode_len();
    let mut parts: Vec<String> = Vec::new();
    let mut start: usize = 0;
    let mut i: usize = 0;
    proof {
        assert(s@.skip(0) =~= s@);
        assert(components_view(parts@) + split_path(s@) =~= split_path(s@));
    }
    while i < n
        invariant
            start <= i <= n,
            n == s@.len(),
            forall|j: int| start <= j < i ==> s@[j] != '/',
            split_path(s@) == components_view(parts@) + split_path(s@.skip(start as int)),
        decreases n - i,
    {
        if s.get_char(i) == '/' {
            let comp = s.substring_char(start, i).to_owned();
            proof {
                let pre = s@.subrange(start as int, i as int);
                assert(s@.skip(start as int) =~= pre + seq!['/'] + s@.skip(i as int + 1));
                lemma_split_first_component(pre, s@.skip(i as int + 1));
                assert(components_view(parts@ + seq![comp]) =~= components_view(parts@)
                    + seq![pre]);
            }
            parts.push(comp);
            start = i + 1;
        }
        i = i + 1;
    }
    let comp = s.substring_char(start, n).to_owned();
    proof {
        let pre = s@.subrange(start as int, n as int);
        assert(s@.skip(start as int) =~= pre);
        lemma_split_no_slash(pre);
        assert(components_view(parts@ + seq![comp]) =~= components_view(parts@) + seq![pre]);
    }
    parts.push(comp);
    parts
}

/// Appending one more component joins with a single separator.
proof fn lemma_join_take_succ(p: Seq<Seq<char>>, i: int)
    requires
        1 <= i < p.len(),
    ensures
        join_path(p.take(i + 1)) == join_path(p.take(i)) + seq!['/'] + p[i],
    decreases i,
{
    if i == 1 {
        assert(p.take(2).drop_first() =~= seq![p[1]]);
        assert(join_path(seq![p[1]]) == p[1]);
        assert(p.take(2)[0] == p[0]);
        assert(join_path(p.take(1)) == p.take(1)[0]);
        assert(p.take(1)[0] == p[0]);
        assert(join_path(p.take(2)) == p[0] + seq!['/'] + p[1]);
    } else {
        lemma_join_take_succ(p.drop_first(), i - 1);
        assert(p.take(i + 1).drop_first() =~= p.drop_first().take(i));
        assert(p.take(i).drop_first() =~= p.drop_first().take(i - 1));
        assert(p.take(i + 1)[0] == p[0]);
        assert(p.take(i)[0] == p[0]);
        assert(p.drop_first()[i - 1] == p[i]);
        assert(join_path(p.take(i + 1)) == p[0] + seq!['/'] + join_path(p.drop_first().take(i)));
        assert(join_path(p.take(i)) == p[0] + seq!['/'] + join_path(p.drop_first().take(i - 1)));
        assert(p[0] + seq!['/'] + (join_path(p.drop_first().take(i - 1)) + seq!['/'] + p[i]) =~= (
        p[0] + seq!['/'] + join_path(p.drop_first().take(i - 1))) + seq!['/'] + p[i]);
    }
}

/// Joins the first `k` components of `parts` with separators.
fn join_components(parts: &Vec<String>, k: usize) -> (r: String)
    requires
        k <= parts@.len(),
    ensures
        r@ == join_path(components_view(parts@).take(k as int)),
{
    let ghost pv = components_view(parts@);
    let mut r = String::new();
    if k == 0 {
        proof {
            assert(pv.take(0) =~= Seq::<Seq<char>>::empty());
        }
        return r;
    }
    r.append(parts[0].as_str());
    proof {
        assert(pv.take(1).len() == 1);
        assert(pv.take(1)[0] == parts@[0]@);
        assert(r@ =~= join_path(pv.take(1)));
    }
    let mut i: usize = 1;
    while i < k
        invariant
            1 <= i <= k,
            k <= parts@.len(),
            pv == components_view(parts@),
            r@ == join_path(pv.take(i as int)),
        decreases k - i,
    {
        r.append("/");
        r.append(parts[i].as_str());
        proof {
            lemma_join_take_succ(pv, i as int);
            reveal_strlit("/");
            assert("/"@ =~= seq!['/']);
            assert(pv[i as int] == parts@[i as int]@);
        }
        i = i + 1;
    }
    r
}

/// The longest common `/`-delimited component prefix of the two paths:
/// both are split on `/`, compared component by component, and the
/// components before the first mismatch are joined again. Symmetric in
/// its arguments; a path is its own common prefix with itself.
pub fn common_prefix_between(x: &str, y: &str) -> (r: String)
    ensures
        r@ == common_prefix(x@, y@),
{
    let a = split_components(x);
    let b = split_components(y);
    let mut k: usize = 0;
    while k < a.len() && k < b.len() && a[k].eq(&b[k])
        invariant
            k <= a@.len(),
            k <= b@.len(),
            forall|j: int| 0 <= j < k ==> a@[j]@ == b@[j]@,
        decreases a@.len() - k,
    {
        k = k + 1;
    }
    proof {
        let av = components_view(a@);
        let bv = components_view(b@);
        assert(forall|j: int| 0 <= j < k ==> av[j] == bv[j]);
        if k < a@.len() && k < b@.len() {
            assert(av[k as int] != bv[k as int]);
        }
        lemma_common_parts_prefix(av, bv, k as int);
    }
    join_components(&a, k)
}

} // verus!
