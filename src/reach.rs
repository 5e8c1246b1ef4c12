use vstd::prelude::*;
use crate::types::{Route, PortHandle};

verus! {

/// The routes held in a sequence, as a set.
pub open spec fn route_set(routes: Seq<Route>) -> Set<Route> {
    Set::new(|r: Route| routes.contains(r))
}

/// `s` is closed under the routes: whatever a member feeds is a member.
pub open spec fn closed(rs: Set<Route>, s: Set<int>) -> bool {
    forall|r: Route|
        #![trigger rs.contains(r)]
        rs.contains(r) && s.contains(r.from.component as int) ==> s.contains(r.to.component as int)
}

/// Component `b` is reachable from `a` along zero or more routes.
pub open spec fn reaches(rs: Set<Route>, a: int, b: int) -> bool {
    forall|s: Set<int>| #![trigger closed(rs, s)] closed(rs, s) && s.contains(a) ==> s.contains(b)
}

/// Every component fed directly by `a` is in `s`.
pub open spec fn holds_successors(rs: Set<Route>, a: int, s: Set<int>) -> bool {
    forall|r: Route|
        #![trigger rs.contains(r)]
        rs.contains(r) && r.from.component == a ==> s.contains(r.to.component as int)
}

/// Component `b` is reachable from `a` along one or more routes.
pub open spec fn reaches_plus(rs: Set<Route>, a: int, b: int) -> bool {
    forall|s: Set<int>|
        #![trigger closed(rs, s), holds_successors(rs, a, s)]
        closed(rs, s) && holds_successors(rs, a, s) ==> s.contains(b)
}

/// No component is reachable from itself along one or more routes.
pub open spec fn acyclic(rs: Set<Route>) -> bool {
    forall|a: int| !#[trigger] reaches_plus(rs, a, a)
}

/// Every route joins two of the `n` components.
pub open spec fn routes_within(rs: Set<Route>, n: nat) -> bool {
    forall|r: Route|
        #![trigger rs.contains(r)]
        rs.contains(r) ==> r.from.component < n && r.to.component < n
}

/// `order` lists the `n` components once each, `pos` gives each one's place in it,
/// and every route leads to a later place.
pub open spec fn is_topological(order: Seq<usize>, pos: Seq<usize>, n: nat, rs: Set<Route>) -> bool {
    &&& order.len() == n
    &&& pos.len() == n
    &&& forall|i: int| 0 <= i < n ==> #[trigger] order[i] < n && pos[order[i] as int] == i
    &&& forall|c: int| 0 <= c < n ==> #[trigger] pos[c] < n && order[pos[c] as int] == c
    &&& forall|r: Route|
        #![trigger rs.contains(r)]
        rs.contains(r) ==> pos[r.from.component as int] < pos[r.to.component as int]
}

pub proof fn lemma_reaches_refl(rs: Set<Route>, a: int)
    ensures
        reaches(rs, a, a),
{
}

/// One more route extends a path.
pub proof fn lemma_reaches_step(rs: Set<Route>, a: int, r: Route)
    requires
        reaches(rs, a, r.from.component as int),
        rs.contains(r),
    ensures
        reaches(rs, a, r.to.component as int),
{
    assert forall|s: Set<int>| #[trigger] closed(rs, s) && s.contains(a) implies s.contains(
        r.to.component as int,
    ) by {
        assert(s.contains(r.from.component as int));
    }
}

/// A topological order rules out cycles.
pub proof fn lemma_topological_acyclic(order: Seq<usize>, pos: Seq<usize>, n: nat, rs: Set<Route>)
    requires
        is_topological(order, pos, n, rs),
        routes_within(rs, n),
    ensures
        acyclic(rs),
{
    assert forall|a: int| !#[trigger] reaches_plus(rs, a, a) by {
        if 0 <= a < n {
            let s = Set::new(|c: int| 0 <= c < n && pos[c] > pos[a]);
            assert(closed(rs, s)) by {
                assert forall|r: Route| #[trigger]
                    rs.contains(r) && s.contains(r.from.component as int) implies s.contains(
                    r.to.component as int,
                ) by {}
            }
            assert(holds_successors(rs, a, s)) by {
                assert forall|r: Route| #[trigger]
                    rs.contains(r) && r.from.component == a implies s.contains(
                    r.to.component as int,
                ) by {}
            }
            assert(!s.contains(a));
        } else {
            let s = Set::new(|c: int| 0 <= c < n);
            assert(closed(rs, s)) by {
                assert forall|r: Route| #[trigger]
                    rs.contains(r) && s.contains(r.from.component as int) implies s.contains(
                    r.to.component as int,
                ) by {}
            }
            assert(holds_successors(rs, a, s)) by {
                assert forall|r: Route| #[trigger]
                    rs.contains(r) && r.from.component == a implies s.contains(
                    r.to.component as int,
                ) by {}
            }
            assert(!s.contains(a));
        }
    }
}

/// A route `f -> t` added where `t` already reaches `f` closes a cycle through `f`.
pub proof fn lemma_closing_route_cycles(rs: Set<Route>, r: Route)
    requires
        reaches(rs, r.to.component as int, r.from.component as int),
    ensures
        reaches_plus(rs.insert(r), r.from.component as int, r.from.component as int),
{
    let big = rs.insert(r);
    let f = r.from.component as int;
    assert forall|s: Set<int>| #[trigger] closed(big, s) && holds_successors(big, f, s) implies s.contains(f) by {
        assert(big.contains(r));
        assert(s.contains(r.to.component as int));
        assert(closed(rs, s)) by {
            assert forall|q: Route| #[trigger]
                rs.contains(q) && s.contains(q.from.component as int) implies s.contains(
                q.to.component as int,
            ) by {
                assert(big.contains(q));
            }
        }
    }
}

pub open spec fn count_false(s: Seq<bool>) -> nat
    decreases s.len(),
{
    if s.len() == 0 {
        0
    } else {
        count_false(s.drop_last()) + if s.last() { 0nat } else { 1nat }
    }
}

proof fn lemma_count_false_set(s: Seq<bool>, i: int)
    requires
        0 <= i < s.len(),
        !s[i],
    ensures
        count_false(s.update(i, true)) + 1 == count_false(s),
    decreases s.len(),
{
    let u = s.update(i, true);
    if i == s.len() - 1 {
        assert(u.drop_last() =~= s.drop_last());
    } else {
        assert(u.drop_last() =~= s.drop_last().update(i, true));
        lemma_count_false_set(s.drop_last(), i);
    }
}

/// Marks every component reachable from `start` along `routes`.
pub fn reachable_from(routes: &Vec<Route>, n: usize, start: usize) -> (marks: Vec<bool>)
    requires
        start < n,
        routes_within(route_set(routes@), n as nat),
    ensures
        marks@.len() == n,
        forall|c: int| 0 <= c < n ==> (#[trigger] marks@[c] <==> reaches(route_set(routes@), start as int, c)),
{
    let ghost rs = route_set(routes@);
    let mut marks: Vec<bool> = Vec::new();
    let mut i: usize = 0;
    while i < n
        invariant
            i <= n,
            marks@.len() == i,
            forall|c: int| 0 <= c < i ==> marks@[c] == (c == start),
        decreases n - i,
    {
        marks.push(i == start);
        i = i + 1;
    }
    proof {
        lemma_reaches_refl(rs, start as int);
    }
    let mut changed = true;
    while changed
        invariant
            start < n,
            marks@.len() == n,
            routes_within(rs, n as nat),
            rs == route_set(routes@),
            marks@[start as int],
            forall|c: int| 0 <= c < n ==> #[trigger] marks@[c] ==> reaches(rs, start as int, c),
            !changed ==> forall|k: int|
                0 <= k < routes@.len() && #[trigger] marks@[routes@[k].from.component as int]
                    ==> marks@[routes@[k].to.component as int],
        decreases count_false(marks@) + if changed { 1nat } else { 0nat },
    {
        let ghost before = marks@;
        changed = false;
        let mut k: usize = 0;
        while k < routes.len()
            invariant
                start < n,
                marks@.len() == n,
                routes_within(rs, n as nat),
                rs == route_set(routes@),
                marks@[start as int],
                k <= routes@.len(),
                forall|c: int| 0 <= c < n ==> #[trigger] marks@[c] ==> reaches(rs, start as int, c),
                !changed ==> marks@ == before,
                changed ==> count_false(marks@) < count_false(before),
                !changed ==> forall|j: int|
                    0 <= j < k && #[trigger] marks@[routes@[j].from.component as int]
                        ==> marks@[routes@[j].to.component as int],
            decreases routes@.len() - k,
        {
            let r = routes[k];
            assert(rs.contains(r)) by {
                assert(routes@[k as int] == r);
            }
            let src = r.from.component;
            let dst = r.to.component;
            if marks[src] && !marks[dst] {
                proof {
                    lemma_reaches_step(rs, start as int, r);
                    lemma_count_false_set(marks@, dst as int);
                }
                marks.set(dst, true);
                changed = true;
            }
            k = k + 1;
        }
    }
    proof {
        let s = Set::new(|c: int| 0 <= c < n && marks@[c]);
        assert(closed(rs, s)) by {
            assert forall|r: Route| #[trigger]
                rs.contains(r) && s.contains(r.from.component as int) implies s.contains(
                r.to.component as int,
            ) by {
                let k = choose|k: int| 0 <= k < routes@.len() && routes@[k] == r;
                assert(marks@[routes@[k].from.component as int]);
            }
        }
        assert forall|c: int| 0 <= c < n && reaches(rs, start as int, c) implies #[trigger] marks@[c] by {
            assert(s.contains(start as int));
        }
    }
    marks
}

/// How many of the first `i` entries of `order` have mark `want`.
pub open spec fn count_class(order: Seq<usize>, marks: Seq<bool>, want: bool, i: int) -> nat
    decreases i,
{
    if i <= 0 {
        0
    } else {
        count_class(order, marks, want, i - 1) + if marks[order[i - 1] as int] == want { 1nat } else { 0nat }
    }
}

proof fn lemma_count_class_total(order: Seq<usize>, marks: Seq<bool>, i: int)
    requires
        0 <= i,
    ensures
        count_class(order, marks, false, i) + count_class(order, marks, true, i) == i,
    decreases i,
{
    if i > 0 {
        lemma_count_class_total(order, marks, i - 1);
    }
}

/// The entries of `order[..i]` whose mark is `want`, in order.
pub open spec fn spec_pass(order: Seq<usize>, marks: Seq<bool>, want: bool, i: int) -> Seq<usize>
    decreases i,
{
    if i <= 0 {
        Seq::empty()
    } else {
        let prev = spec_pass(order, marks, want, i - 1);
        if marks[order[i - 1] as int] == want { prev.push(order[i - 1]) } else { prev }
    }
}

/// `order` with its unmarked entries first and its marked ones after, each group kept
/// in order.
pub open spec fn spec_partition(order: Seq<usize>, marks: Seq<bool>) -> Seq<usize> {
    spec_pass(order, marks, false, order.len() as int) + spec_pass(order, marks, true, order.len() as int)
}

/// Which of the `n` components are reachable from `t`.
pub open spec fn reach_marks(rs: Set<Route>, n: nat, t: int) -> Seq<bool> {
    Seq::new(n, |c: int| reaches(rs, t, c))
}

/// The execution order of `n` components under routes `rs`: starting from the
/// components by number, for each component `t` in turn, everything `t` reaches is
/// moved after everything else. It depends on `n` and the route set alone.
pub open spec fn canon_order(rs: Set<Route>, n: nat, k: int) -> Seq<usize>
    decreases k,
{
    if k <= 0 {
        Seq::new(n, |i: int| i as usize)
    } else {
        spec_partition(canon_order(rs, n, k - 1), reach_marks(rs, n, k - 1))
    }
}

/// A route back into `a` from a component that `a` reaches closes a cycle through `a`.
pub proof fn lemma_back_route_cycles(rs: Set<Route>, a: int, r: Route)
    requires
        rs.contains(r),
        r.to.component == a,
        reaches(rs, a, r.from.component as int),
    ensures
        reaches_plus(rs, a, a),
{
    let b = r.from.component as int;
    assert forall|s: Set<int>| #[trigger] closed(rs, s) && holds_successors(rs, a, s) implies s.contains(a) by {
        let s2 = s.insert(a);
        assert(closed(rs, s2)) by {
            assert forall|q: Route| #[trigger] rs.contains(q) && s2.contains(q.from.component as int) implies s2.contains(
                q.to.component as int,
            ) by {
                if s.contains(q.from.component as int) {
                } else {
                    assert(q.from.component == a);
                }
            }
        }
        assert(s2.contains(b));
        if s.contains(b) {
        } else {
            assert(b == a);
        }
    }
}

/// `order` and `pos` are inverse permutations of the `n` components.
pub open spec fn is_permutation(order: Seq<usize>, pos: Seq<usize>, n: nat) -> bool {
    &&& order.len() == n
    &&& pos.len() == n
    &&& forall|i: int| 0 <= i < n ==> #[trigger] order[i] < n && pos[order[i] as int] == i
    &&& forall|c: int| 0 <= c < n ==> #[trigger] pos[c] < n && order[pos[c] as int] == c
}

/// The state of a partition pass that has looked at the first `i` places of `order`.
spec fn pass_state(
    order: Seq<usize>,
    pos: Seq<usize>,
    marks: Seq<bool>,
    want: bool,
    i: int,
    no: Seq<usize>,
    np: Seq<usize>,
) -> bool {
    let n = order.len();
    &&& np.len() == n
    &&& forall|j: int| 0 <= j < no.len() ==> #[trigger] no[j] < n && np[no[j] as int] == j
    &&& forall|j1: int, j2: int|
        0 <= j1 < j2 < no.len() ==> (marks[#[trigger] no[j1] as int] == marks[#[trigger] no[j2] as int]
            ==> pos[no[j1] as int] < pos[no[j2] as int]) && (marks[no[j1] as int] ==> marks[no[j2] as int])
    &&& forall|c: int|
        0 <= c < n ==> ((np[c] < no.len() && no[np[c] as int] == c) <==> ((want && !#[trigger] marks[c]) || (
        marks[c] == want && pos[c] < i)))
}

fn partition_pass(
    order: &Vec<usize>,
    pos: &Vec<usize>,
    marks: &Vec<bool>,
    want: bool,
    new_order: &mut Vec<usize>,
    new_pos: &mut Vec<usize>,
)
    requires
        is_permutation(order@, pos@, order@.len()),
        marks@.len() == order@.len(),
        pass_state(order@, pos@, marks@, want, 0, old(new_order)@, old(new_pos)@),
        old(new_order)@.len() == if want { count_class(order@, marks@, false, order@.len() as int) } else { 0 },
    ensures
        pass_state(order@, pos@, marks@, want, order@.len() as int, final(new_order)@, final(new_pos)@),
        final(new_order)@.len() == old(new_order)@.len() + count_class(order@, marks@, want, order@.len() as int),
        final(new_order)@ == old(new_order)@ + spec_pass(order@, marks@, want, order@.len() as int),
{
    let n = order.len();
    let ghost base = new_order@.len();
    let ghost start = new_order@;
    let mut i: usize = 0;
    while i < n
        invariant
            n == order@.len(),
            i <= n,
            is_permutation(order@, pos@, n as nat),
            marks@.len() == n,
            pass_state(order@, pos@, marks@, want, i as int, new_order@, new_pos@),
            new_order@.len() == base + count_class(order@, marks@, want, i as int),
            new_order@ == start + spec_pass(order@, marks@, want, i as int),
            base == if want { count_class(order@, marks@, false, n as int) } else { 0 },
        decreases n - i,
    {
        let c = order[i];
        proof {
            lemma_count_class_total(order@, marks@, n as int);
            lemma_count_class_total(order@, marks@, i as int);
            assert(count_class(order@, marks@, want, i as int) <= i);
            if want {
                assert(count_class(order@, marks@, true, n as int) <= n);
            }
        }
        if marks[c] == want {
            let ghost no = new_order@;
            let ghost np = new_pos@;
            let len = new_order.len();
            proof {
                // `c` is not listed yet: it sits at place `i`, past all listed ones of its class.
                assert(!(np[c as int] < no.len() && no[np[c as int] as int] == c));
            }
            new_pos.set(c, len);
            new_order.push(c);
            proof {
                let no2 = new_order@;
                let np2 = new_pos@;
                assert forall|j: int| 0 <= j < no2.len() implies #[trigger] no2[j] < n && np2[no2[j] as int] == j by {
                    if j < no.len() {
                        assert(no[j] != c);
                    }
                }
                assert forall|j1: int, j2: int| 0 <= j1 < j2 < no2.len() implies (marks@[
                    #[trigger] no2[j1] as int] == marks@[#[trigger] no2[j2] as int] ==> pos@[no2[j1] as int]
                    < pos@[no2[j2] as int]) && (marks@[no2[j1] as int] ==> marks@[no2[j2] as int]) by {
                    if j2 == no.len() {
                        let d = no[j1];
                        assert(np[d as int] == j1);
                        if !want {
                            assert(!marks@[d as int]);
                        }
                        if marks@[d as int] == want {
                            assert(pos@[d as int] < i);
                        }
                    }
                }
                assert forall|d: int| 0 <= d < n implies ((np2[d] < no2.len() && no2[np2[d] as int] == d) <==> ((
                want && !#[trigger] marks@[d]) || (marks@[d] == want && pos@[d] < i + 1))) by {
                    if d != c {
                        assert(pos@[d] != i);
                    }
                }
                assert(pass_state(order@, pos@, marks@, want, i + 1, no2, np2));
                assert(no2 =~= start + spec_pass(order@, marks@, want, i + 1));
            }
        } else {
            proof {
                assert forall|d: int| 0 <= d < n implies ((new_pos@[d] < new_order@.len() && new_order@[new_pos@[d] as int] == d) <==> ((
                want && !#[trigger] marks@[d]) || (marks@[d] == want && pos@[d] < i + 1))) by {
                    if d != c {
                        assert(pos@[d] != i);
                    }
                }
            }
        }
        i = i + 1;
    }
}

/// Lists the unmarked components first and the marked ones after them, each group
/// in its order in `order`.
pub fn partition_order(order: &Vec<usize>, pos: &Vec<usize>, marks: &Vec<bool>) -> (r: (Vec<usize>, Vec<usize>))
    requires
        is_permutation(order@, pos@, order@.len()),
        marks@.len() == order@.len(),
    ensures
        is_permutation(r.0@, r.1@, order@.len()),
        r.0@ == spec_partition(order@, marks@),
        forall|u: int, v: int|
            0 <= u < order@.len() && 0 <= v < order@.len() && marks@[u] == marks@[v] && pos@[u] < pos@[v]
                ==> #[trigger] r.1@[u] < #[trigger] r.1@[v],
        forall|u: int, v: int|
            0 <= u < order@.len() && 0 <= v < order@.len() && !marks@[u] && marks@[v] ==> #[trigger] r.1@[u]
                < #[trigger] r.1@[v],
{
    let n = order.len();
    let mut new_order: Vec<usize> = Vec::new();
    let mut new_pos: Vec<usize> = Vec::new();
    let mut i: usize = 0;
    while i < n
        invariant
            i <= n,
            new_pos@.len() == i,
        decreases n - i,
    {
        new_pos.push(0);
        i = i + 1;
    }
    partition_pass(order, pos, marks, false, &mut new_order, &mut new_pos);
    partition_pass(order, pos, marks, true, &mut new_order, &mut new_pos);
    proof {
        assert(new_order@ =~= spec_partition(order@, marks@));
        lemma_count_class_total(order@, marks@, n as int);
        let no = new_order@;
        let np = new_pos@;
        assert(no.len() == n);
        assert(pass_state(order@, pos@, marks@, true, n as int, no, np));
        assert forall|c: int| 0 <= c < n implies #[trigger] np[c] < n && no[np[c] as int] == c by {
            assert(pos@[c] < n);
            assert((np[c] < no.len() && no[np[c] as int] == c) <==> ((true && !marks@[c]) || (marks@[c] == true && pos@[c] < n)));
        }
        assert forall|j: int| 0 <= j < n implies #[trigger] no[j] < n && np[no[j] as int] == j by {}
        assert forall|u: int, v: int|
            0 <= u < n && 0 <= v < n && marks@[u] == marks@[v] && pos@[u] < pos@[v]
                implies #[trigger] np[u] < #[trigger] np[v] by {
            assert(marks@[u] || !marks@[u]);
            assert(no[np[u] as int] == u && no[np[v] as int] == v);
            if np[v] < np[u] {
                assert(pos@[no[np[v] as int] as int] < pos@[no[np[u] as int] as int]);
            }
        }
        assert forall|u: int, v: int|
            0 <= u < n && 0 <= v < n && !marks@[u] && marks@[v] implies #[trigger] np[u] < #[trigger] np[v] by {
            assert(marks@[u] || !marks@[u]);
            assert(marks@[v] || !marks@[v]);
            assert(no[np[u] as int] == u && no[np[v] as int] == v);
            if np[v] < np[u] {
                assert(marks@[no[np[v] as int] as int] ==> marks@[no[np[u] as int] as int]);
            }
        }
    }
    (new_order, new_pos)
}


/// The order `canon_order(rs, n, n)` with its inverse. Needs an acyclic route set.
pub fn canonical_order(routes: &Vec<Route>, n: usize) -> (r: (Vec<usize>, Vec<usize>))
    requires
        routes_within(route_set(routes@), n as nat),
        acyclic(route_set(routes@)),
    ensures
        is_topological(r.0@, r.1@, n as nat, route_set(routes@)),
        r.0@ == canon_order(route_set(routes@), n as nat, n as int),
{
    let ghost rs = route_set(routes@);
    let mut order: Vec<usize> = Vec::new();
    let mut pos: Vec<usize> = Vec::new();
    let mut i: usize = 0;
    while i < n
        invariant
            i <= n,
            order@ == Seq::new(i as nat, |j: int| j as usize),
            pos@ == Seq::new(i as nat, |j: int| j as usize),
        decreases n - i,
    {
        order.push(i);
        pos.push(i);
        proof {
            assert(order@ =~= Seq::new((i + 1) as nat, |j: int| j as usize));
            assert(pos@ =~= Seq::new((i + 1) as nat, |j: int| j as usize));
        }
        i = i + 1;
    }
    let mut t: usize = 0;
    while t < n
        invariant
            t <= n,
            rs == route_set(routes@),
            routes_within(rs, n as nat),
            acyclic(rs),
            is_permutation(order@, pos@, n as nat),
            order@ == canon_order(rs, n as nat, t as int),
            forall|r: Route|
                #![trigger rs.contains(r)]
                rs.contains(r) && r.to.component < t ==> pos@[r.from.component as int] < pos@[r.to.component as int],
        decreases n - t,
    {
        let marks = reachable_from(routes, n, t);
        proof {
            assert(marks@ =~= reach_marks(rs, n as nat, t as int));
        }
        let (o2, p2) = partition_order(&order, &pos, &marks);
        proof {
            assert forall|r: Route|
                #![trigger rs.contains(r)]
                rs.contains(r) && r.to.component < t + 1 implies p2@[r.from.component as int] < p2@[r.to.component as int] by {
                let u = r.from.component as int;
                let v = r.to.component as int;
                if v < t {
                    if marks@[u] {
                        lemma_reaches_step(rs, t as int, r);
                    }
                } else {
                    lemma_reaches_refl(rs, t as int);
                    if marks@[u] {
                        lemma_back_route_cycles(rs, t as int, r);
                        assert(!reaches_plus(rs, t as int, t as int));
                    }
                }
            }
        }
        order = o2;
        pos = p2;
        t = t + 1;
    }
    (order, pos)
}

} // verus!
