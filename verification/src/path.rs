//! Paths: runs of characters in which slashes separate the components.

use vstd::prelude::*;

verus! {

/// The number of slashes that `p` starts with.
pub open spec fn leading_slashes(p: Seq<char>) -> nat
    decreases p.len(),
{
    if p.len() > 0 && p[0] == '/' {
        1 + leading_slashes(p.skip(1))
    } else {
        0
    }
}

/// The length of the longest start of `p` that holds no slash.
pub open spec fn component_len(p: Seq<char>) -> nat
    decreases p.len(),
{
    if p.len() > 0 && p[0] != '/' {
        1 + component_len(p.skip(1))
    } else {
        0
    }
}

pub proof fn leading_slashes_bound(p: Seq<char>)
    ensures
        leading_slashes(p) <= p.len(),
        leading_slashes(p) < p.len() ==> p[leading_slashes(p) as int] != '/',
        forall|i: int| 0 <= i < leading_slashes(p) ==> p[i] == '/',
    decreases p.len(),
{
    if p.len() > 0 && p[0] == '/' {
        leading_slashes_bound(p.skip(1));
        let n = leading_slashes(p.skip(1));
        assert forall|i: int| 0 <= i < leading_slashes(p) implies p[i] == '/' by {
            if i > 0 {
                assert(p.skip(1)[i - 1] == p[i]);
            }
        }
    }
}

pub proof fn component_len_bound(p: Seq<char>)
    ensures
        component_len(p) <= p.len(),
        component_len(p) < p.len() ==> p[component_len(p) as int] == '/',
        forall|i: int| 0 <= i < component_len(p) ==> p[i] != '/',
        p.len() > 0 && p[0] != '/' ==> component_len(p) > 0,
    decreases p.len(),
{
    if p.len() > 0 && p[0] != '/' {
        component_len_bound(p.skip(1));
        assert forall|i: int| 0 <= i < component_len(p) implies p[i] != '/' by {
            if i > 0 {
                assert(p.skip(1)[i - 1] == p[i]);
            }
        }
    }
}

/// `n` is the number of leading slashes when `p` has slashes up to `n` and none there.
proof fn leading_slashes_is(p: Seq<char>, n: nat)
    requires
        n <= p.len(),
        forall|i: int| 0 <= i < n ==> p[i] == '/',
        n < p.len() ==> p[n as int] != '/',
    ensures
        leading_slashes(p) == n,
    decreases n,
{
    if n > 0 {
        assert forall|i: int| 0 <= i < n - 1 implies p.skip(1)[i] == '/' by {
            assert(p.skip(1)[i] == p[i + 1]);
        }
        leading_slashes_is(p.skip(1), (n - 1) as nat);
    }
}

proof fn component_len_is(p: Seq<char>, n: nat)
    requires
        n <= p.len(),
        forall|i: int| 0 <= i < n ==> p[i] != '/',
        n < p.len() ==> p[n as int] == '/',
    ensures
        component_len(p) == n,
    decreases n,
{
    if n > 0 {
        assert forall|i: int| 0 <= i < n - 1 implies p.skip(1)[i] != '/' by {
            assert(p.skip(1)[i] == p[i + 1]);
        }
        component_len_is(p.skip(1), (n - 1) as nat);
    }
}

/// `p` without the slashes that it starts with.
pub open spec fn stripped(p: Seq<char>) -> Seq<char> {
    p.skip(leading_slashes(p) as int)
}

/// The first component of `p` and what follows it.
pub open spec fn popped(p: Seq<char>) -> Option<(Seq<char>, Seq<char>)> {
    let q = stripped(p);
    if q.len() == 0 {
        None
    } else {
        Some((q.take(component_len(q) as int), q.skip(component_len(q) as int)))
    }
}

/// The components of `p`, none of them empty.
pub open spec fn components(p: Seq<char>) -> Seq<Seq<char>>
    decreases p.len(),
{
    match popped(p) {
        None => Seq::empty(),
        Some((c, rest)) => {
            if rest.len() < p.len() {
                seq![c] + components(rest)
            } else {
                Seq::empty()
            }
        },
    }
}

/// What follows the first component is shorter than the path, and the first
/// component is not empty and holds no slash.
pub proof fn popped_shrinks(p: Seq<char>)
    ensures
        popped(p) matches Some((c, rest)) ==> {
            &&& rest.len() < p.len()
            &&& 0 < c.len() <= p.len()
            &&& forall|i: int| 0 <= i < c.len() ==> c[i] != '/'
        },
{
    leading_slashes_bound(p);
    let q = stripped(p);
    component_len_bound(q);
    if q.len() > 0 {
        assert(q[0] == p[leading_slashes(p) as int]);
    }
}

/// The position of the last slash of `p`.
pub open spec fn last_slash(p: Seq<char>) -> Option<int>
    decreases p.len(),
{
    if p.len() == 0 {
        None
    } else if p.last() == '/' {
        Some(p.len() - 1)
    } else {
        last_slash(p.drop_last())
    }
}

pub proof fn last_slash_bound(p: Seq<char>)
    ensures
        last_slash(p) matches Some(i) ==> 0 <= i < p.len() && p[i] == '/',
    decreases p.len(),
{
    if p.len() > 0 && p.last() != '/' {
        last_slash_bound(p.drop_last());
    }
}

/// What stands before the last slash of `p`, and what stands after it.
pub open spec fn parent_and_leaf(p: Seq<char>) -> (Seq<char>, Seq<char>) {
    match last_slash(p) {
        Some(i) => (p.take(i), p.skip(i + 1)),
        None => (Seq::empty(), p),
    }
}

pub fn strip_slashes(p: &[char]) -> (q: &[char])
    ensures
        q@ == stripped(p@),
{
    let mut s: usize = 0;
    while s < p.len() && p[s] == '/'
        invariant
            s <= p@.len(),
            forall|i: int| 0 <= i < s ==> p@[i] == '/',
        decreases p@.len() - s,
    {
        s += 1;
    }
    proof {
        leading_slashes_is(p@, s as nat);
    }
    let n: usize = p.len();
    &p[s..n]
}

pub fn pop_comp(p: &[char]) -> (r: Option<(&[char], &[char])>)
    ensures
        match (r, popped(p@)) {
            (None, None) => true,
            (Some((c, rest)), Some((cs, rs))) => c@ == cs && rest@ == rs && rs.len() < p@.len()
                && 0 < cs.len() <= p@.len(),
            _ => false,
        },
{
    let q = strip_slashes(p);
    proof {
        popped_shrinks(p@);
    }
    if q.is_empty() {
        return None;
    }
    let mut s: usize = 0;
    while s < q.len() && q[s] != '/'
        invariant
            s <= q@.len(),
            forall|i: int| 0 <= i < s ==> q@[i] != '/',
        decreases q@.len() - s,
    {
        s += 1;
    }
    proof {
        component_len_is(q@, s as nat);
    }
    let n: usize = q.len();
    assert(q@.subrange(0, s as int) =~= q@.take(s as int));
    assert(q@.subrange(s as int, n as int) =~= q@.skip(s as int));
    Some((&q[0..s], &q[s..n]))
}

/// Splits a path into the directory part and the last component.
pub fn split_parent(path: &[char]) -> (r: (&[char], &[char]))
    ensures
        (r.0@, r.1@) == parent_and_leaf(path@),
{
    let mut n: usize = path.len();
    assert(path@.take(n as int) =~= path@);
    while n > 0
        invariant
            n <= path@.len(),
            last_slash(path@) == last_slash(path@.take(n as int)),
        decreases n,
    {
        assert(path@.take(n as int).drop_last() =~= path@.take(n - 1));
        if path[n - 1] == '/' {
            let total: usize = path.len();
            assert(path@.subrange(0, n - 1) =~= path@.take(n - 1));
            assert(path@.subrange(n as int, total as int) =~= path@.skip(n as int));
            return (&path[0..n - 1], &path[n..total]);
        }
        n -= 1;
    }
    assert(path@.subrange(0, 0) =~= Seq::<char>::empty());
    (&path[0..0], path)
}

// ---------- laws ----------

proof fn no_slash(p: Seq<char>)
    requires
        forall|k: int| 0 <= k < p.len() ==> #[trigger] p[k] != '/',
    ensures
        last_slash(p) is None,
    decreases p.len(),
{
    if p.len() > 0 {
        assert(p[p.len() - 1] != '/');
        assert forall|k: int| 0 <= k < p.drop_last().len() implies #[trigger] p.drop_last()[k] != '/' by {
            assert(p[k] != '/');
        }
        no_slash(p.drop_last());
    }
}

/// A name without a slash is a path of one component, and stands for itself in
/// the directory at hand.
pub proof fn name_alone(name: Seq<char>)
    requires
        name.len() > 0,
        forall|k: int| 0 <= k < name.len() ==> #[trigger] name[k] != '/',
    ensures
        components(name) == seq![name],
        parent_and_leaf(name) == (Seq::<char>::empty(), name),
{
    no_slash(name);
    assert(name[0] != '/');
    leading_slashes_is(name, 0);
    assert(stripped(name) =~= name);
    component_len_is(name, name.len());
    assert(name.take(name.len() as int) =~= name);
    let none = name.skip(name.len() as int);
    assert(none =~= Seq::<char>::empty());
    assert(components(none) =~= Seq::<Seq<char>>::empty()) by {
        assert(popped(none) is None);
    }
    assert(components(name) =~= seq![name]);
}

proof fn slash_behind(p: Seq<char>, name: Seq<char>)
    requires
        forall|k: int| 0 <= k < name.len() ==> #[trigger] name[k] != '/',
    ensures
        last_slash(p + seq!['/'] + name) == Some(p.len() as int),
    decreases name.len(),
{
    let q = p + seq!['/'] + name;
    if name.len() == 0 {
        assert(q.last() == '/');
    } else {
        assert(q.last() == name[name.len() - 1]);
        assert(q.drop_last() =~= p + seq!['/'] + name.drop_last());
        assert forall|k: int| 0 <= k < name.drop_last().len() implies #[trigger] name.drop_last()[k]
            != '/' by {
            assert(name[k] != '/');
        }
        slash_behind(p, name.drop_last());
    }
}

/// A name behind a slash is the last component of its path, and what stands
/// before the slash is the way to it.
pub proof fn joined_path(p: Seq<char>, name: Seq<char>)
    requires
        name.len() > 0,
        forall|k: int| 0 <= k < name.len() ==> #[trigger] name[k] != '/',
    ensures
        parent_and_leaf(p + seq!['/'] + name) == (p, name),
        components(p + seq!['/'] + name) == components(p).push(name),
{
    let q = p + seq!['/'] + name;
    slash_behind(p, name);
    assert(q.take(p.len() as int) =~= p);
    assert(q.skip(p.len() as int + 1) =~= name);
    components_joined(p, name);
}

proof fn components_joined(p: Seq<char>, name: Seq<char>)
    requires
        name.len() > 0,
        forall|k: int| 0 <= k < name.len() ==> #[trigger] name[k] != '/',
    ensures
        components(p + seq!['/'] + name) == components(p).push(name),
    decreases p.len(),
{
    let q = p + seq!['/'] + name;
    let m = leading_slashes(p);
    leading_slashes_bound(p);
    if m == p.len() {
        // nothing but slashes
        assert(popped(p) is None);
        assert(components(p) =~= Seq::<Seq<char>>::empty());
        assert forall|i: int| 0 <= i < m + 1 implies q[i] == '/' by {
            if i < m {
                assert(q[i] == p[i]);
            }
        }
        assert(q[m as int + 1] == name[0]);
        leading_slashes_is(q, m + 1);
        assert(stripped(q) =~= name);
        name_alone(name);
        component_len_is(name, name.len());
        assert(name.take(name.len() as int) =~= name);
        assert(name.skip(name.len() as int) =~= Seq::<char>::empty());
        assert(components(Seq::<char>::empty()) =~= Seq::<Seq<char>>::empty()) by {
            assert(popped(Seq::<char>::empty()) is None);
        }
        assert(components(q) =~= components(p).push(name));
    } else {
        assert forall|i: int| 0 <= i < m implies q[i] == '/' by {
            assert(q[i] == p[i]);
        }
        assert(q[m as int] == p[m as int]);
        leading_slashes_is(q, m);
        let sp = stripped(p);
        let sq = stripped(q);
        assert(sq =~= sp + seq!['/'] + name);
        let c = component_len(sp);
        component_len_bound(sp);
        assert(sp[0] == p[m as int]);
        assert forall|i: int| 0 <= i < c implies sq[i] != '/' by {
            assert(sq[i] == sp[i]);
        }
        assert(sq[c as int] == '/') by {
            if c < sp.len() {
                assert(sq[c as int] == sp[c as int]);
            }
        }
        component_len_is(sq, c);
        assert(sq.take(c as int) =~= sp.take(c as int));
        let rest = sp.skip(c as int);
        assert(sq.skip(c as int) =~= rest + seq!['/'] + name);
        components_joined(rest, name);
        assert(components(p) == seq![sp.take(c as int)] + components(rest));
        assert(components(q) == seq![sp.take(c as int)] + components(rest + seq!['/'] + name));
        assert(components(q) =~= components(p).push(name));
    }
}

} // verus!
