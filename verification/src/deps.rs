use vstd::prelude::*;
use vstd::set_lib::{lemma_int_range, lemma_len_subset, lemma_subset_equality, set_int_range};

use crate::service::{string_views, ServiceConfig};

verus! {

// ---------------------------------------------------------------------------
// Tokens that a service provides
// ---------------------------------------------------------------------------

/// Whether `service` provides `token`, by its name or by its `provides` list.
pub open spec fn provides_token(service: ServiceConfig, token: Seq<char>) -> bool {
    service.name@ == token || string_views(service.provides@).contains(token)
}

/// The elements of `s` in order, each kept only at its first occurrence.
pub open spec fn first_occurrences(s: Seq<Seq<char>>) -> Seq<Seq<char>>
    decreases s.len(),
{
    if s.len() == 0 {
        Seq::empty()
    } else {
        let prev = first_occurrences(s.drop_last());
        if prev.contains(s.last()) {
            prev
        } else {
            prev.push(s.last())
        }
    }
}

/// The tokens a service provides: its name, then its `provides` list, without repeats.
pub open spec fn spec_provided_tokens(service: ServiceConfig) -> Seq<Seq<char>> {
    first_occurrences(seq![service.name@] + string_views(service.provides@))
}

/// The views of a sequence of borrowed strings.
pub open spec fn ref_views(v: Seq<&String>) -> Seq<Seq<char>> {
    v.map_values(|s: &String| s@)
}

proof fn lemma_first_occurrences(s: Seq<Seq<char>>)
    ensures
        first_occurrences(s).no_duplicates(),
        forall|t: Seq<char>| #[trigger] first_occurrences(s).contains(t) <==> s.contains(t),
    decreases s.len(),
{
    if s.len() == 0 {
        assert(first_occurrences(s) =~= Seq::<Seq<char>>::empty());
        assert forall|t: Seq<char>| #[trigger] first_occurrences(s).contains(t) <==> s.contains(t) by {}
    } else {
        let d = s.drop_last();
        let prev = first_occurrences(d);
        let l = s.last();
        lemma_first_occurrences(d);
        assert forall|t: Seq<char>| s.contains(t) <==> (d.contains(t) || t == l) by {
            if s.contains(t) {
                let i = choose|i: int| 0 <= i < s.len() && s[i] == t;
                if i < s.len() - 1 {
                    assert(d[i] == t);
                }
            }
            if d.contains(t) {
                let i = choose|i: int| 0 <= i < d.len() && d[i] == t;
                assert(s[i] == t);
            }
            if t == l {
                assert(s[s.len() - 1] == t);
            }
        }
        if prev.contains(l) {
            assert(first_occurrences(s) == prev);
            assert forall|t: Seq<char>| #[trigger] first_occurrences(s).contains(t) <==> s.contains(t) by {
                assert(prev.contains(t) <==> d.contains(t));
                assert(prev.contains(l) <==> d.contains(l));
            }
        } else {
            assert(first_occurrences(s) == prev.push(l));
            assert forall|t: Seq<char>| prev.push(l).contains(t) <==> (prev.contains(t) || t == l) by {
                if prev.push(l).contains(t) {
                    let i = choose|i: int| 0 <= i < prev.push(l).len() && prev.push(l)[i] == t;
                    if i < prev.len() {
                        assert(prev[i] == t);
                    }
                }
                if prev.contains(t) {
                    let i = choose|i: int| 0 <= i < prev.len() && prev[i] == t;
                    assert(prev.push(l)[i] == t);
                }
                if t == l {
                    assert(prev.push(l)[prev.len() as int] == t);
                }
            }
            assert forall|t: Seq<char>| #[trigger] first_occurrences(s).contains(t) <==> s.contains(t) by {
                assert(prev.contains(t) <==> d.contains(t));
            }
            assert forall|i: int, j: int|
                0 <= i < prev.push(l).len() && 0 <= j < prev.push(l).len() && i != j implies prev.push(l)[i]
                != prev.push(l)[j] by {
                if i < prev.len() && j < prev.len() {
                } else if i < prev.len() {
                    assert(prev.contains(prev[i]));
                } else if j < prev.len() {
                    assert(prev.contains(prev[j]));
                }
            }
        }
    }
}

/// The tokens of `service` hold exactly what it provides, with no repeats.
pub proof fn lemma_provided_tokens(service: ServiceConfig)
    ensures
        spec_provided_tokens(service).no_duplicates(),
        forall|t: Seq<char>| #[trigger] spec_provided_tokens(service).contains(t) <==> provides_token(service, t),
{
    let full = seq![service.name@] + string_views(service.provides@);
    lemma_first_occurrences(full);
    assert forall|t: Seq<char>| #[trigger] spec_provided_tokens(service).contains(t) <==> provides_token(service, t) by {
        if full.contains(t) {
            let i = choose|i: int| 0 <= i < full.len() && full[i] == t;
            if i > 0 {
                assert(string_views(service.provides@)[i - 1] == t);
            }
        }
        if provides_token(service, t) {
            if service.name@ == t {
                assert(full[0] == t);
            } else {
                let i = choose|i: int| 0 <= i < string_views(service.provides@).len() && string_views(service.provides@)[i] == t;
                assert(full[i + 1] == t);
            }
        }
    }
}

fn contains_token(tokens: &Vec<&String>, item: &String) -> (found: bool)
    ensures
        found == ref_views(tokens@).contains(item@),
{
    let mut k: usize = 0;
    while k < tokens.len()
        invariant
            0 <= k <= tokens@.len(),
            forall|i: int| 0 <= i < k ==> ref_views(tokens@)[i] != item@,
        decreases tokens@.len() - k,
    {
        if *tokens[k] == *item {
            assert(ref_views(tokens@)[k as int] == item@);
            return true;
        }
        k = k + 1;
    }
    false
}

/// The tokens that `service` provides: its name first, then each entry of its
/// `provides` list that has not occurred before.
pub fn provided_tokens(service: &ServiceConfig) -> (tokens: Vec<&String>)
    ensures
        ref_views(tokens@) == spec_provided_tokens(*service),
{
    let ghost full = seq![service.name@] + string_views(service.provides@);
    let mut tokens: Vec<&String> = Vec::new();
    tokens.push(&service.name);
    proof {
        assert(full.take(1).drop_last() =~= Seq::<Seq<char>>::empty());
        assert(first_occurrences(full.take(1).drop_last()) =~= Seq::<Seq<char>>::empty());
        assert(full.take(1).last() == service.name@);
        assert(first_occurrences(full.take(1)) =~= seq![service.name@]);
        assert(ref_views(tokens@) =~= first_occurrences(full.take(1)));
    }
    let mut i: usize = 0;
    while i < service.provides.len()
        invariant
            0 <= i <= service.provides@.len(),
            full == seq![service.name@] + string_views(service.provides@),
            ref_views(tokens@) == first_occurrences(full.take(i + 1)),
        decreases service.provides@.len() - i,
    {
        let item = &service.provides[i];
        let ghost before = tokens@;
        proof {
            assert(full.take(i + 2).drop_last() =~= full.take(i + 1));
            assert(full.take(i + 2).last() == item@);
        }
        if !contains_token(&tokens, item) {
            tokens.push(item);
            proof {
                assert(ref_views(tokens@) =~= ref_views(before).push(item@));
            }
        }
        i = i + 1;
    }
    proof {
        assert(full.take(i + 1) =~= full);
    }
    tokens
}

/// Whether `service` provides `token`.
fn service_provides(service: &ServiceConfig, token: &String) -> (res: bool)
    ensures
        res == provides_token(*service, token@),
{
    if service.name == *token {
        return true;
    }
    let mut k: usize = 0;
    while k < service.provides.len()
        invariant
            0 <= k <= service.provides@.len(),
            forall|i: int| 0 <= i < k ==> string_views(service.provides@)[i] != token@,
        decreases service.provides@.len() - k,
    {
        if service.provides[k] == *token {
            assert(string_views(service.provides@)[k as int] == token@);
            return true;
        }
        k = k + 1;
    }
    false
}

/// The first service among `services[..limit]` that provides `token`.
pub(crate) fn find_provider(services: &[ServiceConfig], limit: usize, token: &String) -> (res: Option<usize>)
    requires
        limit <= services@.len(),
    ensures
        match res {
            Some(p) => {
                &&& p < limit
                &&& provides_token(services@[p as int], token@)
                &&& forall|q: int| 0 <= q < p ==> !provides_token(#[trigger] services@[q], token@)
            },
            None => forall|q: int| 0 <= q < limit ==> !provides_token(#[trigger] services@[q], token@),
        },
{
    let mut p: usize = 0;
    while p < limit
        invariant
            0 <= p <= limit <= services@.len(),
            forall|q: int| 0 <= q < p ==> !provides_token(#[trigger] services@[q], token@),
        decreases limit - p,
    {
        if service_provides(&services[p], token) {
            return Some(p);
        }
        p = p + 1;
    }
    None
}

// ---------------------------------------------------------------------------
// The dependency relation
// ---------------------------------------------------------------------------

/// No token is provided by two services among the first `m`.
pub open spec fn unique_providers_upto(services: Seq<ServiceConfig>, m: int) -> bool {
    forall|i: int, j: int, t: Seq<char>|
        0 <= i < m && 0 <= j < m && i != j && #[trigger] provides_token(services[i], t)
            ==> !#[trigger] provides_token(services[j], t)
}

/// No token is provided by two services.
pub open spec fn unique_providers(services: Seq<ServiceConfig>) -> bool {
    unique_providers_upto(services, services.len() as int)
}

/// `token` is a token of `services[current]`, already provided by the earlier
/// `services[previous]`, and it is the first such clash when the services are
/// scanned in order and each one's tokens in the order of `spec_provided_tokens`.
pub open spec fn is_first_duplicate(
    services: Seq<ServiceConfig>,
    token: Seq<char>,
    previous: int,
    current: int,
) -> bool {
    let tokens = spec_provided_tokens(services[current]);
    &&& 0 <= previous < current < services.len()
    &&& unique_providers_upto(services, current)
    &&& provides_token(services[previous], token)
    &&& provides_token(services[current], token)
    &&& exists|k: int|
        0 <= k < tokens.len() && tokens[k] == token && forall|k2: int, p: int|
            0 <= k2 < k && 0 <= p < current ==> !#[trigger] provides_token(services[p], tokens[k2])
}

/// Some service provides `token`.
pub open spec fn has_provider(services: Seq<ServiceConfig>, token: Seq<char>) -> bool {
    exists|p: int| 0 <= p < services.len() && provides_token(#[trigger] services[p], token)
}

/// The view of the `j`-th dependency of service `x`.
pub open spec fn dep_view(services: Seq<ServiceConfig>, x: int, j: int) -> Seq<char> {
    services[x].depends@[j]@
}

/// Every dependency of every service is provided by some service.
pub open spec fn all_dependencies_provided(services: Seq<ServiceConfig>) -> bool {
    forall|x: int, j: int|
        0 <= x < services.len() && 0 <= j < services[x].depends@.len() ==> has_provider(
            services,
            #[trigger] dep_view(services, x, j),
        )
}

/// Dependency `j` of service `x` has no provider, and it is the first such one
/// when the services and their dependencies are scanned in order.
pub open spec fn is_first_missing(services: Seq<ServiceConfig>, x: int, j: int) -> bool {
    &&& 0 <= x < services.len()
    &&& 0 <= j < services[x].depends@.len()
    &&& !has_provider(services, dep_view(services, x, j))
    &&& forall|x2: int, j2: int|
        0 <= x2 < x && 0 <= j2 < services[x2].depends@.len() ==> has_provider(
            services,
            #[trigger] dep_view(services, x2, j2),
        )
    &&& forall|j2: int| 0 <= j2 < j ==> has_provider(services, #[trigger] dep_view(services, x, j2))
}

/// `dependency` is the first dependency without a provider of service `service`,
/// in the sense of `is_first_missing`.
pub open spec fn is_reported_missing(services: Seq<ServiceConfig>, service: int, dependency: Seq<char>) -> bool {
    exists|j: int| is_first_missing(services, service, j) && dep_view(services, service, j) == dependency
}

/// The service that provides `token` (meaningful where exactly one does).
pub open spec fn provider_of(services: Seq<ServiceConfig>, token: Seq<char>) -> int {
    choose|p: int| 0 <= p < services.len() && provides_token(services[p], token)
}

/// Service `x` needs service `p` started first: `p` provides one of `x`'s
/// dependencies, and `p` is not `x` itself.
pub open spec fn depends_on(services: Seq<ServiceConfig>, x: int, p: int) -> bool {
    &&& p != x
    &&& exists|j: int|
        0 <= j < services[x].depends@.len() && provider_of(services, #[trigger] dep_view(services, x, j)) == p
}

/// `order` lists every service exactly once, and no service comes before one it depends on.
pub open spec fn is_start_order(services: Seq<ServiceConfig>, order: Seq<usize>) -> bool {
    &&& order.len() == services.len()
    &&& order.no_duplicates()
    &&& forall|i: int| 0 <= i < order.len() ==> #[trigger] order[i] < services.len()
    &&& forall|a: int, b: int|
        0 <= a < b < order.len() ==> !depends_on(services, #[trigger] order[a] as int, #[trigger] order[b] as int)
}

/// What a refusal to compute a start order says of `services`.
pub open spec fn refusal_explained(services: Seq<ServiceConfig>, e: DepsError) -> bool {
    match e {
        DepsError::DuplicateProvider { token, previous, current } => is_first_duplicate(
            services,
            token@,
            previous as int,
            current as int,
        ),
        DepsError::MissingProvider { service, dependency } => {
            &&& unique_providers(services)
            &&& is_reported_missing(services, service as int, dependency@)
        },
        DepsError::Cycle => {
            &&& unique_providers(services)
            &&& all_dependencies_provided(services)
            &&& forall|order: Seq<usize>| !is_start_order(services, order)
        },
    }
}

/// Lexicographic order on ranks.
pub open spec fn rank_less(r1: (int, int), r2: (int, int)) -> bool {
    r1.0 < r2.0 || (r1.0 == r2.0 && r1.1 < r2.1)
}

/// The position in `order` of the last service that `x` depends on, or -1
/// when `x` depends on none of them.
pub open spec fn last_dependency_position(services: Seq<ServiceConfig>, order: Seq<usize>, x: int) -> int
    decreases order.len(),
{
    if order.len() == 0 {
        -1
    } else if depends_on(services, x, order.last() as int) {
        order.len() - 1
    } else {
        last_dependency_position(services, order.drop_last(), x)
    }
}

/// The rank of service `x` in `order`: the position of the last service it
/// depends on, then its own index.
pub open spec fn start_rank(services: Seq<ServiceConfig>, order: Seq<usize>, x: int) -> (int, int) {
    (last_dependency_position(services, order, x), x)
}

/// `order` is the first-in-first-out order: services that depend on none come
/// first, by index; every other service comes after those whose last
/// dependency was started earlier, and among those with the same last
/// dependency, by index.
pub open spec fn is_queue_order(services: Seq<ServiceConfig>, order: Seq<usize>) -> bool {
    forall|a: int, b: int|
        0 <= a < b < order.len() ==> rank_less(
            start_rank(services, order, #[trigger] order[a] as int),
            start_rank(services, order, #[trigger] order[b] as int),
        )
}

/// Why no start order can be computed.
#[derive(Debug)]
pub enum DepsError {
    /// `token` is provided both by service `previous` and by service `current`.
    DuplicateProvider { token: String, previous: usize, current: usize },
    /// Service `service` depends on `dependency`, which no service provides.
    MissingProvider { service: usize, dependency: String },
    /// The services depend on each other in a cycle.
    Cycle,
}

proof fn lemma_provider_unique(services: Seq<ServiceConfig>, token: Seq<char>, p: int)
    requires
        unique_providers(services),
        0 <= p < services.len(),
        provides_token(services[p], token),
    ensures
        provider_of(services, token) == p,
{
    let q = provider_of(services, token);
    assert(0 <= q < services.len() && provides_token(services[q], token));
}

// ---------------------------------------------------------------------------
// Counting edges
// ---------------------------------------------------------------------------

/// The number of edges into `x` whose source is not in `done`.
spec fn pending_into(edges: Seq<(usize, usize)>, x: usize, done: Seq<usize>) -> nat
    decreases edges.len(),
{
    if edges.len() == 0 {
        0
    } else {
        pending_into(edges.drop_last(), x, done) + if edges.last().1 == x && !done.contains(
            edges.last().0,
        ) {
            1nat
        } else {
            0nat
        }
    }
}

/// The number of edges equal to `(c, x)`.
spec fn count_edge(edges: Seq<(usize, usize)>, c: usize, x: usize) -> nat
    decreases edges.len(),
{
    if edges.len() == 0 {
        0
    } else {
        count_edge(edges.drop_last(), c, x) + if edges.last() == (c, x) {
            1nat
        } else {
            0nat
        }
    }
}

proof fn lemma_pending_split(edges: Seq<(usize, usize)>, x: usize, done: Seq<usize>, c: usize)
    requires
        !done.contains(c),
    ensures
        pending_into(edges, x, done) == pending_into(edges, x, done.push(c)) + count_edge(edges, c, x),
    decreases edges.len(),
{
    if edges.len() > 0 {
        lemma_pending_split(edges.drop_last(), x, done, c);
        let e = edges.last();
        assert(done.push(c).contains(e.0) <==> (done.contains(e.0) || e.0 == c)) by {
            if done.push(c).contains(e.0) {
                let i = choose|i: int| 0 <= i < done.push(c).len() && done.push(c)[i] == e.0;
                if i < done.len() {
                    assert(done[i] == e.0);
                }
            }
            if done.contains(e.0) {
                let i = choose|i: int| 0 <= i < done.len() && done[i] == e.0;
                assert(done.push(c)[i] == e.0);
            }
            if e.0 == c {
                assert(done.push(c)[done.len() as int] == e.0);
            }
        }
    }
}

proof fn lemma_count_prefix(edges: Seq<(usize, usize)>, k: int, c: usize, x: usize)
    requires
        0 <= k <= edges.len(),
    ensures
        count_edge(edges.take(k), c, x) <= count_edge(edges, c, x),
    decreases edges.len(),
{
    if k < edges.len() {
        assert(edges.drop_last().take(k) =~= edges.take(k));
        lemma_count_prefix(edges.drop_last(), k, c, x);
    } else {
        assert(edges.take(k) =~= edges);
    }
}

proof fn lemma_count_step(edges: Seq<(usize, usize)>, k: int, c: usize, x: usize)
    requires
        0 <= k < edges.len(),
    ensures
        count_edge(edges.take(k + 1), c, x) == count_edge(edges.take(k), c, x) + if edges[k] == (c, x) {
            1nat
        } else {
            0nat
        },
{
    assert(edges.take(k + 1).drop_last() =~= edges.take(k));
}

proof fn lemma_pending_zero(edges: Seq<(usize, usize)>, x: usize, done: Seq<usize>)
    ensures
        pending_into(edges, x, done) == 0 <==> forall|i: int|
            0 <= i < edges.len() && #[trigger] edges[i].1 == x ==> done.contains(edges[i].0),
    decreases edges.len(),
{
    if edges.len() > 0 {
        lemma_pending_zero(edges.drop_last(), x, done);
        if pending_into(edges, x, done) == 0 {
            assert forall|i: int| 0 <= i < edges.len() && #[trigger] edges[i].1 == x implies done.contains(
                edges[i].0,
            ) by {
                if i < edges.len() - 1 {
                    assert(edges.drop_last()[i] == edges[i]);
                }
            }
        } else {
            if pending_into(edges.drop_last(), x, done) > 0 {
                let i = choose|i: int|
                    0 <= i < edges.drop_last().len() && #[trigger] edges.drop_last()[i].1 == x
                        && !done.contains(edges.drop_last()[i].0);
                assert(edges[i] == edges.drop_last()[i]);
            } else {
                assert(edges[edges.len() - 1].1 == x);
            }
        }
    }
}

proof fn lemma_pending_bound(edges: Seq<(usize, usize)>, x: usize, done: Seq<usize>)
    ensures
        pending_into(edges, x, done) <= edges.len(),
    decreases edges.len(),
{
    if edges.len() > 0 {
        lemma_pending_bound(edges.drop_last(), x, done);
    }
}

/// Some edge goes from `p` into `x`.
spec fn has_edge(edges: Seq<(usize, usize)>, p: usize, x: usize) -> bool {
    exists|i: int| 0 <= i < edges.len() && edges[i] == (p, x)
}

/// The last position in `s` of a node with an edge into `x`, or -1.
spec fn last_feeder(edges: Seq<(usize, usize)>, s: Seq<usize>, x: usize) -> int
    decreases s.len(),
{
    if s.len() == 0 {
        -1
    } else if has_edge(edges, s.last(), x) {
        s.len() - 1
    } else {
        last_feeder(edges, s.drop_last(), x)
    }
}

/// The rank of `x` in the queue of Kahn's algorithm over `s`.
spec fn feeder_key(edges: Seq<(usize, usize)>, s: Seq<usize>, x: usize) -> (int, int) {
    (last_feeder(edges, s, x), x as int)
}

/// `s` is strictly increasing in `feeder_key`.
spec fn sorted_by_feeder(edges: Seq<(usize, usize)>, s: Seq<usize>) -> bool {
    forall|a: int, b: int|
        0 <= a < b < s.len() ==> rank_less(
            feeder_key(edges, s, #[trigger] s[a]),
            feeder_key(edges, s, #[trigger] s[b]),
        )
}

/// The targets of the edges never decrease along the list.
spec fn edges_sorted(edges: Seq<(usize, usize)>) -> bool {
    forall|i: int, j: int| 0 <= i < j < edges.len() ==> (#[trigger] edges[i]).1 <= (#[trigger] edges[j]).1
}

proof fn lemma_last_feeder(edges: Seq<(usize, usize)>, s: Seq<usize>, x: usize)
    ensures
        -1 <= last_feeder(edges, s, x) < s.len(),
        last_feeder(edges, s, x) >= 0 ==> has_edge(edges, s[last_feeder(edges, s, x)], x),
        forall|a: int| 0 <= a < s.len() && #[trigger] has_edge(edges, s[a], x) ==> a <= last_feeder(edges, s, x),
    decreases s.len(),
{
    if s.len() > 0 {
        lemma_last_feeder(edges, s.drop_last(), x);
        assert forall|a: int| 0 <= a < s.len() && #[trigger] has_edge(edges, s[a], x) implies a <= last_feeder(
            edges,
            s,
            x,
        ) by {
            if a < s.len() - 1 {
                assert(s.drop_last()[a] == s[a]);
            }
        }
        if !has_edge(edges, s.last(), x) && last_feeder(edges, s, x) >= 0 {
            assert(s.drop_last()[last_feeder(edges, s, x)] == s[last_feeder(edges, s, x)]);
        }
    }
}

proof fn lemma_last_feeder_push(edges: Seq<(usize, usize)>, s: Seq<usize>, z: usize, y: usize)
    ensures
        last_feeder(edges, s.push(z), y) == if has_edge(edges, z, y) {
            s.len() as int
        } else {
            last_feeder(edges, s, y)
        },
{
    assert(s.push(z).drop_last() =~= s);
}

/// Appending `x` to a sequence sorted by rank keeps it sorted, when `x` feeds
/// no node of it and ranks above its last node.
proof fn lemma_sorted_push(edges: Seq<(usize, usize)>, s: Seq<usize>, x: usize)
    requires
        sorted_by_feeder(edges, s),
        forall|a: int| 0 <= a < s.len() ==> !has_edge(edges, x, #[trigger] s[a]),
        !has_edge(edges, x, x),
        s.len() > 0 ==> rank_less(feeder_key(edges, s, s.last()), feeder_key(edges, s, x)),
    ensures
        sorted_by_feeder(edges, s.push(x)),
{
    let t = s.push(x);
    assert forall|a: int| 0 <= a < s.len() implies feeder_key(edges, t, #[trigger] t[a]) == feeder_key(
        edges,
        s,
        s[a],
    ) by {
        lemma_last_feeder_push(edges, s, x, s[a]);
    }
    lemma_last_feeder_push(edges, s, x, x);
    assert forall|a: int, b: int| 0 <= a < b < t.len() implies rank_less(
        feeder_key(edges, t, #[trigger] t[a]),
        feeder_key(edges, t, #[trigger] t[b]),
    ) by {
        assert(t[a] == s[a]);
        if b < s.len() {
            assert(t[b] == s[b]);
        } else {
            assert(t[b] == x);
            if a < s.len() - 1 {
                assert(rank_less(feeder_key(edges, s, s[a]), feeder_key(edges, s, s[s.len() - 1])));
            }
        }
    }
}

/// The node that the processing of `c` (the last node of `order`) appends
/// to the queue through the edge `k` ranks above every node already there,
/// has the position of `c` as its rank, and feeds none of them.
proof fn lemma_next_in_queue(
    edges: Seq<(usize, usize)>,
    order: Seq<usize>,
    queue: Seq<usize>,
    c: usize,
    x: usize,
    k: int,
)
    requires
        (order + queue).no_duplicates(),
        order.len() > 0,
        order.last() == c,
        0 <= k < edges.len(),
        edges[k] == (c, x),
        edges_sorted(edges),
        forall|i: int| 0 <= i < edges.len() ==> (#[trigger] edges[i]).0 != edges[i].1,
        !(order + queue).contains(x),
        forall|i: int| 0 <= i < edges.len() && (#[trigger] edges[i]).1 == x ==> order.contains(edges[i].0),
        forall|i: int| 0 <= i < edges.len() && queue.contains((#[trigger] edges[i]).1) ==> order.contains(edges[i].0),
        forall|i: int, b: int|
            0 <= i < edges.len() && 0 <= b < order.len() && #[trigger] order[b] == (#[trigger] edges[i]).1
                ==> exists|a: int| 0 <= a < b && order[a] == edges[i].0,
        forall|q: int|
            0 <= q < queue.len() && has_edge(edges, c, #[trigger] queue[q]) ==> exists|i: int|
                0 <= i < k && edges[i] == (c, queue[q]),
    ensures
        last_feeder(edges, order + queue, x) == order.len() - 1,
        rank_less(
            feeder_key(edges, order + queue, (order + queue).last()),
            feeder_key(edges, order + queue, x),
        ),
        forall|a: int| 0 <= a < (order + queue).len() ==> !has_edge(edges, x, #[trigger] (order + queue)[a]),
        !has_edge(edges, x, x),
{
    let s = order + queue;
    let m = order.len() as int;
    // A node of `order` sits at the same position in `s`, and nowhere else.
    assert forall|a: int, b: int| 0 <= a < s.len() && 0 <= b < m && s[a] == order[b] implies a == b by {
        assert(s[b] == order[b]);
    }
    assert(s[m - 1] == c);
    assert(has_edge(edges, c, x));
    lemma_last_feeder(edges, s, x);
    let lx = last_feeder(edges, s, x);
    assert(lx == m - 1) by {
        let i = choose|i: int| 0 <= i < edges.len() && edges[i] == (s[lx], x);
        assert(order.contains(edges[i].0));
        let b = choose|b: int| 0 <= b < order.len() && order[b] == edges[i].0;
    }
    let z = s.last();
    lemma_last_feeder(edges, s, z);
    let lz = last_feeder(edges, s, z);
    if queue.len() > 0 {
        assert(z == queue[queue.len() - 1]);
        assert(queue.contains(z));
        if lz >= 0 {
            let i = choose|i: int| 0 <= i < edges.len() && edges[i] == (s[lz], z);
            assert(order.contains(edges[i].0));
            let b = choose|b: int| 0 <= b < order.len() && order[b] == edges[i].0;
            assert(lz == b);
            if lz == m - 1 {
                assert(has_edge(edges, c, queue[queue.len() - 1]));
                let i2 = choose|i2: int| 0 <= i2 < k && edges[i2] == (c, queue[queue.len() - 1]);
                assert(z <= x);
                assert(s[s.len() - 1] == z);
                assert(z != x);
            }
        }
    } else {
        assert(s =~= order);
        assert(z == c);
        if lz >= 0 {
            let i = choose|i: int| 0 <= i < edges.len() && edges[i] == (s[lz], z);
            assert(order[m - 1] == edges[i].1);
            let a = choose|a: int| 0 <= a < m - 1 && order[a] == edges[i].0;
            assert(lz == a);
        }
    }
    assert forall|a: int| 0 <= a < s.len() implies !has_edge(edges, x, #[trigger] s[a]) by {
        if has_edge(edges, x, s[a]) {
            let i = choose|i: int| 0 <= i < edges.len() && edges[i] == (x, s[a]);
            if a < m {
                assert(order[a] == edges[i].1);
                let a2 = choose|a2: int| 0 <= a2 < a && order[a2] == edges[i].0;
                assert(s[a2] == x);
            } else {
                assert(queue[a - m] == s[a]);
                assert(queue.contains(edges[i].1));
                let b = choose|b: int| 0 <= b < order.len() && order[b] == x;
                assert(s[b] == x);
            }
        }
    }
    if has_edge(edges, x, x) {
        let i = choose|i: int| 0 <= i < edges.len() && edges[i] == (x, x);
    }
}

proof fn lemma_rank_translation(services: Seq<ServiceConfig>, edges: Seq<(usize, usize)>, order: Seq<usize>, x: usize)
    requires
        forall|a: int|
            0 <= a < order.len() ==> (has_edge(edges, #[trigger] order[a], x) <==> depends_on(
                services,
                x as int,
                order[a] as int,
            )),
    ensures
        last_feeder(edges, order, x) == last_dependency_position(services, order, x as int),
    decreases order.len(),
{
    if order.len() > 0 {
        assert(order.last() == order[order.len() - 1]);
        assert forall|a: int| 0 <= a < order.drop_last().len() implies (has_edge(
            edges,
            #[trigger] order.drop_last()[a],
            x,
        ) <==> depends_on(services, x as int, order.drop_last()[a] as int)) by {
            assert(order.drop_last()[a] == order[a]);
        }
        lemma_rank_translation(services, edges, order.drop_last(), x);
    }
}

/// A duplicate-free sequence of indices below `n` has at most `n` entries;
/// with exactly `n` it holds every index, with fewer it misses one.
pub(crate) proof fn lemma_distinct_indices(s: Seq<usize>, n: int)
    requires
        0 <= n <= usize::MAX,
        s.no_duplicates(),
        forall|i: int| 0 <= i < s.len() ==> #[trigger] s[i] < n,
    ensures
        s.len() <= n,
        s.len() == n ==> forall|u: usize| u < n ==> #[trigger] s.contains(u),
        s.len() < n ==> exists|u: usize| u < n && !#[trigger] s.contains(u),
{
    let t = s.map_values(|v: usize| v as int);
    assert(t.no_duplicates()) by {
        assert forall|i: int, j: int| 0 <= i < t.len() && 0 <= j < t.len() && i != j implies t[i] != t[j] by {
            assert(s[i] != s[j]);
        }
    }
    t.unique_seq_to_set();
    let range = set_int_range(0, n);
    lemma_int_range(0, n);
    assert(t.to_set().subset_of(range)) by {
        assert forall|v: int| t.to_set().contains(v) implies range.contains(v) by {
            assert(t.contains(v));
            let i = choose|i: int| 0 <= i < t.len() && t[i] == v;
            assert(s[i] < n);
        }
    }
    lemma_len_subset(t.to_set(), range);
    if s.len() == n {
        lemma_subset_equality(t.to_set(), range);
        assert forall|u: usize| u < n implies #[trigger] s.contains(u) by {
            assert(range.contains(u as int));
            assert(t.to_set().contains(u as int));
            let i = choose|i: int| 0 <= i < t.len() && t[i] == u as int;
            assert(s[i] == u);
        }
    }
    if s.len() < n {
        if forall|u: usize| u < n ==> #[trigger] s.contains(u) {
            assert(range.subset_of(t.to_set())) by {
                assert forall|u: int| range.contains(u) implies t.to_set().contains(u) by {
                    assert(s.contains(u as usize));
                    let i = choose|i: int| 0 <= i < s.len() && s[i] == u as usize;
                    assert(t[i] == u);
                }
            }
            lemma_len_subset(range, t.to_set());
            assert(false);
        }
    }
}

/// The first position of `ord` whose entry is not in `done`.
proof fn lemma_first_outside(ord: Seq<usize>, done: Seq<usize>, k: int) -> (m: int)
    requires
        0 <= k < ord.len(),
        !done.contains(ord[k]),
    ensures
        0 <= m <= k,
        !done.contains(ord[m]),
        forall|i: int| 0 <= i < m ==> done.contains(#[trigger] ord[i]),
    decreases k,
{
    if exists|i: int| 0 <= i < k && !done.contains(#[trigger] ord[i]) {
        let i = choose|i: int| 0 <= i < k && !done.contains(#[trigger] ord[i]);
        lemma_first_outside(ord, done, i)
    } else {
        k
    }
}

proof fn lemma_last_dependency_position(services: Seq<ServiceConfig>, order: Seq<usize>, x: int)
    ensures
        -1 <= last_dependency_position(services, order, x) < order.len(),
        last_dependency_position(services, order, x) >= 0 ==> depends_on(
            services,
            x,
            order[last_dependency_position(services, order, x)] as int,
        ),
        forall|a: int|
            0 <= a < order.len() && #[trigger] depends_on(services, x, order[a] as int) ==> a
                <= last_dependency_position(services, order, x),
    decreases order.len(),
{
    if order.len() > 0 {
        lemma_last_dependency_position(services, order.drop_last(), x);
        assert forall|a: int|
            0 <= a < order.len() && #[trigger] depends_on(services, x, order[a] as int) implies a
                <= last_dependency_position(services, order, x) by {
            if a < order.len() - 1 {
                assert(order.drop_last()[a] == order[a]);
            }
        }
        let l = last_dependency_position(services, order, x);
        if !depends_on(services, x, order.last() as int) && l >= 0 {
            assert(order.drop_last()[l] == order[l]);
        }
    }
}

/// In two start orders that agree before position `i`, a service at
/// position `i` of the first has the same rank in both.
proof fn lemma_same_rank(services: Seq<ServiceConfig>, o1: Seq<usize>, o2: Seq<usize>, i: int, u: usize)
    requires
        services.len() <= usize::MAX,
        is_start_order(services, o1),
        is_start_order(services, o2),
        0 <= i < o1.len(),
        o1[i] == u,
        forall|a: int| 0 <= a < i ==> o1[a] == o2[a],
    ensures
        last_dependency_position(services, o1, u as int) == last_dependency_position(services, o2, u as int),
{
    let n = services.len() as int;
    lemma_distinct_indices(o1, n);
    lemma_last_dependency_position(services, o1, u as int);
    lemma_last_dependency_position(services, o2, u as int);
    let l1 = last_dependency_position(services, o1, u as int);
    let l2 = last_dependency_position(services, o2, u as int);
    // Every service `u` depends on sits in the common prefix of both orders.
    if l1 >= 0 {
        assert(depends_on(services, o1[i] as int, o1[l1] as int));
        assert(l1 < i) by {
            if l1 > i {
                assert(!depends_on(services, o1[i] as int, o1[l1] as int));
            }
        }
        assert(o2[l1] == o1[l1]);
        assert(depends_on(services, u as int, o2[l1] as int));
    }
    if l2 >= 0 {
        let w = o2[l2];
        assert(o1.contains(w));
        let a = choose|a: int| 0 <= a < o1.len() && o1[a] == w;
        assert(depends_on(services, u as int, o1[a] as int));
        assert(a < i) by {
            if a > i {
                assert(!depends_on(services, o1[i] as int, o1[a] as int));
            }
        }
        assert(o2[a] == w);
        assert(a == l2) by {
            if a != l2 {
                assert(o2[a] == o2[l2]);
            }
        }
        assert(depends_on(services, u as int, o1[l2] as int));
    }
}

/// Two start orders that both are first-in-first-out orders agree on their
/// first `i` positions.
proof fn lemma_queue_orders_agree(services: Seq<ServiceConfig>, o1: Seq<usize>, o2: Seq<usize>, i: int)
    requires
        services.len() <= usize::MAX,
        is_start_order(services, o1),
        is_start_order(services, o2),
        is_queue_order(services, o1),
        is_queue_order(services, o2),
        0 <= i <= o1.len(),
    ensures
        forall|a: int| 0 <= a < i ==> o1[a] == o2[a],
    decreases i,
{
    if i > 0 {
        lemma_queue_orders_agree(services, o1, o2, i - 1);
        let k = i - 1;
        let u = o1[k];
        let v = o2[k];
        if u != v {
            let n = services.len() as int;
            lemma_distinct_indices(o1, n);
            lemma_distinct_indices(o2, n);
            // `v` comes later in `o1`, and `u` later in `o2`.
            assert(o1.contains(v));
            let j1 = choose|j1: int| 0 <= j1 < o1.len() && o1[j1] == v;
            assert(j1 > k) by {
                if j1 < k {
                    assert(o2[j1] == v);
                }
            }
            assert(o2.contains(u));
            let j2 = choose|j2: int| 0 <= j2 < o2.len() && o2[j2] == u;
            assert(j2 > k) by {
                if j2 < k {
                    assert(o1[j2] == o2[j2]);
                }
            }
            lemma_same_rank(services, o1, o2, k, u);
            assert forall|a: int| 0 <= a < k implies o2[a] == o1[a] by {}
            lemma_same_rank(services, o2, o1, k, v);
            assert(rank_less(start_rank(services, o1, o1[k] as int), start_rank(services, o1, o1[j1] as int)));
            assert(rank_less(start_rank(services, o2, o2[k] as int), start_rank(services, o2, o2[j2] as int)));
        }
    }
}

/// The first-in-first-out start order is unique: two sequences that are both
/// start orders and first-in-first-out orders of the same services are equal.
/// So the contract of `resolve_start_order` fixes its result.
pub proof fn lemma_queue_order_unique(services: Seq<ServiceConfig>, o1: Seq<usize>, o2: Seq<usize>)
    requires
        services.len() <= usize::MAX,
        is_start_order(services, o1),
        is_start_order(services, o2),
        is_queue_order(services, o1),
        is_queue_order(services, o2),
    ensures
        o1 == o2,
{
    lemma_queue_orders_agree(services, o1, o2, o1.len() as int);
    assert(o1 =~= o2);
}

// ---------------------------------------------------------------------------
// The start order
// ---------------------------------------------------------------------------

/// Checks that no token is provided twice, scanning the services in order.
fn check_unique_providers(services: &[ServiceConfig]) -> (res: Result<(), DepsError>)
    ensures
        match res {
            Ok(()) => unique_providers(services@),
            Err(DepsError::DuplicateProvider { token, previous, current }) => is_first_duplicate(
                services@,
                token@,
                previous as int,
                current as int,
            ),
            Err(_) => false,
        },
{
    let n = services.len();
    let mut idx: usize = 0;
    while idx < n
        invariant
            n == services@.len(),
            0 <= idx <= n,
            unique_providers_upto(services@, idx as int),
        decreases n - idx,
    {
        let service = &services[idx];
        let tokens = provided_tokens(service);
        proof {
            lemma_provided_tokens(*service);
        }
        let mut k: usize = 0;
        while k < tokens.len()
            invariant
                n == services@.len(),
                0 <= idx < n,
                *service == services@[idx as int],
                0 <= k <= tokens@.len(),
                ref_views(tokens@) == spec_provided_tokens(*service),
                unique_providers_upto(services@, idx as int),
                forall|k2: int, p: int|
                    0 <= k2 < k && 0 <= p < idx ==> !#[trigger] provides_token(
                        services@[p],
                        spec_provided_tokens(*service)[k2],
                    ),
            decreases tokens@.len() - k,
        {
            let token = tokens[k];
            assert(token@ == spec_provided_tokens(*service)[k as int]);
            match find_provider(services, idx, token) {
                Some(previous) => {
                    proof {
                        let toks = spec_provided_tokens(*service);
                        lemma_provided_tokens(*service);
                        assert(0 <= k < toks.len() && toks[k as int] == token@);
                        assert(toks.contains(token@));
                        assert(provides_token(services@[idx as int], token@));
                        assert(forall|k2: int, p: int|
                            0 <= k2 < k && 0 <= p < idx ==> !#[trigger] provides_token(services@[p], toks[k2]));
                        assert(is_first_duplicate(services@, token@, previous as int, idx as int));
                    }
                    return Err(DepsError::DuplicateProvider { token: token.clone(), previous, current: idx });
                },
                None => {},
            }
            k = k + 1;
        }
        proof {
            let toks = spec_provided_tokens(*service);
            lemma_provided_tokens(*service);
            assert forall|i: int, j: int, t: Seq<char>|
                0 <= i < idx + 1 && 0 <= j < idx + 1 && i != j && #[trigger] provides_token(services@[i], t)
                    implies !#[trigger] provides_token(services@[j], t) by {
                if i == idx || j == idx {
                    let other = if i == idx { j } else { i };
                    if provides_token(services@[other], t) && provides_token(services@[idx as int], t) {
                        assert(toks.contains(t));
                        let k2 = choose|k2: int| 0 <= k2 < toks.len() && toks[k2] == t;
                        assert(!provides_token(services@[other], toks[k2]));
                    }
                }
            }
        }
        idx = idx + 1;
    }
    Ok(())
}


/// Every edge `(p, x)` joins two services, and `x` depends on `p`.
spec fn edges_genuine(services: Seq<ServiceConfig>, edges: Seq<(usize, usize)>) -> bool {
    forall|i: int|
        0 <= i < edges.len() ==> {
            &&& (#[trigger] edges[i]).0 < services.len()
            &&& edges[i].1 < services.len()
            &&& depends_on(services, edges[i].1 as int, edges[i].0 as int)
        }
}

/// Every dependency of a service on another service is an edge.
spec fn edges_cover(services: Seq<ServiceConfig>, edges: Seq<(usize, usize)>) -> bool {
    forall|x: int, j: int|
        0 <= x < services.len() && 0 <= j < services[x].depends@.len() && provider_of(
            services,
            #[trigger] dep_view(services, x, j),
        ) != x ==> exists|i: int|
            0 <= i < edges.len() && #[trigger] edges[i] == (
                provider_of(services, dep_view(services, x, j)) as usize,
                x as usize,
            )
}

/// Edges join distinct nodes below `n`.
spec fn edges_well_formed(edges: Seq<(usize, usize)>, n: usize) -> bool {
    forall|i: int|
        0 <= i < edges.len() ==> {
            &&& (#[trigger] edges[i]).0 < n
            &&& edges[i].1 < n
            &&& edges[i].0 != edges[i].1
        }
}

/// The dependency edges `(provider, dependent)` in the order of the services
/// and their dependencies, and for each service the number of edges into it.
fn dependency_edges(services: &[ServiceConfig]) -> (res: Result<(Vec<(usize, usize)>, Vec<usize>), DepsError>)
    requires
        unique_providers(services@),
    ensures
        match res {
            Ok((edges, indegree)) => {
                &&& all_dependencies_provided(services@)
                &&& edges_genuine(services@, edges@)
                &&& edges_cover(services@, edges@)
                &&& edges_sorted(edges@)
                &&& indegree@.len() == services@.len()
                &&& forall|x: int|
                    0 <= x < services@.len() ==> #[trigger] indegree@[x] == pending_into(
                        edges@,
                        x as usize,
                        Seq::empty(),
                    )
            },
            Err(DepsError::MissingProvider { service, dependency }) => is_reported_missing(services@, service as int, dependency@),
            Err(_) => false,
        },
{
    let n = services.len();
    let mut edges: Vec<(usize, usize)> = Vec::new();
    let mut indegree: Vec<usize> = Vec::new();
    let mut i0: usize = 0;
    while i0 < n
        invariant
            n == services@.len(),
            0 <= i0 <= n,
            indegree@.len() == i0,
            forall|x: int| 0 <= x < i0 ==> indegree@[x] == 0,
        decreases n - i0,
    {
        indegree.push(0);
        i0 = i0 + 1;
    }
    let ghost empty_done: Seq<usize> = Seq::empty();

    let mut idx: usize = 0;
    while idx < n
        invariant
            n == services@.len(),
            unique_providers(services@),
            empty_done == Seq::<usize>::empty(),
            0 <= idx <= n,
            edges_sorted(edges@),
            forall|i: int| 0 <= i < edges@.len() ==> (#[trigger] edges@[i]).1 < idx,
            indegree@.len() == n,
            forall|x: int| 0 <= x < n ==> #[trigger] indegree@[x] == pending_into(edges@, x as usize, empty_done),
            forall|i: int|
                0 <= i < edges@.len() ==> {
                    &&& (#[trigger] edges@[i]).0 < n
                    &&& edges@[i].1 < n
                    &&& depends_on(services@, edges@[i].1 as int, edges@[i].0 as int)
                },
            forall|x: int, j: int|
                0 <= x < idx && 0 <= j < services@[x].depends@.len() ==> has_provider(
                    services@,
                    #[trigger] dep_view(services@, x, j),
                ),
            forall|x: int, j: int|
                0 <= x < idx && 0 <= j < services@[x].depends@.len() && provider_of(
                    services@,
                    #[trigger] dep_view(services@, x, j),
                ) != x ==> exists|i: int|
                    0 <= i < edges@.len() && #[trigger] edges@[i] == (
                        provider_of(services@, dep_view(services@, x, j)) as usize,
                        x as usize,
                    ),
        decreases n - idx,
    {
        let service = &services[idx];
        let mut j: usize = 0;
        while j < service.depends.len()
            invariant
                n == services@.len(),
                unique_providers(services@),
                empty_done == Seq::<usize>::empty(),
                0 <= idx < n,
                edges_sorted(edges@),
                forall|i: int| 0 <= i < edges@.len() ==> (#[trigger] edges@[i]).1 <= idx,
                *service == services@[idx as int],
                0 <= j <= service.depends@.len(),
                indegree@.len() == n,
                forall|x: int| 0 <= x < n ==> #[trigger] indegree@[x] == pending_into(edges@, x as usize, empty_done),
                forall|i: int|
                    0 <= i < edges@.len() ==> {
                        &&& (#[trigger] edges@[i]).0 < n
                        &&& edges@[i].1 < n
                        &&& depends_on(services@, edges@[i].1 as int, edges@[i].0 as int)
                    },
                forall|x: int, j2: int|
                    (0 <= x < idx && 0 <= j2 < services@[x].depends@.len()) || (x == idx && 0 <= j2 < j)
                        ==> has_provider(services@, #[trigger] dep_view(services@, x, j2)),
                forall|x: int, j2: int|
                    ((0 <= x < idx && 0 <= j2 < services@[x].depends@.len()) || (x == idx && 0 <= j2 < j))
                        && provider_of(services@, #[trigger] dep_view(services@, x, j2)) != x
                        ==> exists|i: int|
                        0 <= i < edges@.len() && #[trigger] edges@[i] == (
                            provider_of(services@, dep_view(services@, x, j2)) as usize,
                            x as usize,
                        ),
            decreases service.depends@.len() - j,
        {
            let dep = &service.depends[j];
            assert(dep@ == dep_view(services@, idx as int, j as int));
            match find_provider(services, n, dep) {
                None => {
                    let missing = dep.clone();
                    proof {
                        assert(!has_provider(services@, dep@));
                        assert(is_first_missing(services@, idx as int, j as int));
                        assert(dep_view(services@, idx as int, j as int) == missing@);
                        assert(is_reported_missing(services@, idx as int, missing@));
                    }
                    return Err(DepsError::MissingProvider { service: idx, dependency: missing });
                },
                Some(provider) => {
                    proof {
                        lemma_provider_unique(services@, dep@, provider as int);
                    }
                    if provider != idx {
                        let ghost old_edges = edges@;
                        edges.push((provider, idx));
                        proof {
                            assert(edges@.drop_last() =~= old_edges);
                            assert(!empty_done.contains(provider));
                            assert forall|x: int| 0 <= x < n implies #[trigger] pending_into(edges@, x as usize, empty_done)
                                == pending_into(old_edges, x as usize, empty_done) + if x == idx {
                                1nat
                            } else {
                                0nat
                            } by {}
                            assert(pending_into(edges@, idx, empty_done) == pending_into(old_edges, idx, empty_done) + 1);
                            lemma_pending_bound(edges@, idx, empty_done);
                            assert(depends_on(services@, idx as int, provider as int));
                            assert(edges@[old_edges.len() as int] == (provider, idx));
                            assert forall|i: int| 0 <= i < old_edges.len() implies edges@[i] == old_edges[i] by {}
                            assert forall|i: int, i2: int| 0 <= i < i2 < edges@.len() implies (#[trigger] edges@[i]).1
                                <= (#[trigger] edges@[i2]).1 by {
                                assert(edges@[i] == old_edges[i]);
                                if i2 < old_edges.len() {
                                    assert(edges@[i2] == old_edges[i2]);
                                }
                            }
                        }
                        let edge_count = edges.len();
                        let d = indegree[idx];
                        assert(d + 1 <= edge_count);
                        indegree.set(idx, d + 1);
                    }
                },
            }
            j = j + 1;
        }
        idx = idx + 1;
    }

    proof {
        assert(all_dependencies_provided(services@));
        assert(edges_genuine(services@, edges@));
        assert(edges_cover(services@, edges@));
    }
    Ok((edges, indegree))
}

/// Kahn's algorithm, first in first out, over `n` nodes: the nodes in the
/// order they leave the queue. A node left out still has an edge from a node
/// left out.
fn kahn_order(n: usize, edges: &Vec<(usize, usize)>, indegree: Vec<usize>) -> (order: Vec<usize>)
    requires
        edges_well_formed(edges@, n),
        edges_sorted(edges@),
        indegree@.len() == n,
        forall|x: int| 0 <= x < n ==> #[trigger] indegree@[x] == pending_into(edges@, x as usize, Seq::empty()),
    ensures
        order@.no_duplicates(),
        forall|i: int| 0 <= i < order@.len() ==> #[trigger] order@[i] < n,
        forall|i: int, b: int|
            0 <= i < edges@.len() && 0 <= b < order@.len() && #[trigger] order@[b] == (#[trigger] edges@[i]).1
                ==> exists|a: int| 0 <= a < b && order@[a] == edges@[i].0,
        forall|x: usize| x < n && !#[trigger] order@.contains(x) ==> pending_into(edges@, x, order@) > 0,
        sorted_by_feeder(edges@, order@),
{
    let mut indegree = indegree;
    let ghost empty_done: Seq<usize> = Seq::empty();
    // Kahn's algorithm, first in first out.
    let mut queue: std::collections::VecDeque<usize> = std::collections::VecDeque::new();
    let mut x0: usize = 0;
    while x0 < n
        invariant
            0 <= x0 <= n,
            indegree@.len() == n,
            queue@.no_duplicates(),
            forall|i: int| 0 <= i < queue@.len() ==> #[trigger] queue@[i] < x0,
            forall|a: int, b: int| 0 <= a < b < queue@.len() ==> #[trigger] queue@[a] < #[trigger] queue@[b],
            forall|x: int| 0 <= x < x0 ==> (#[trigger] indegree@[x] == 0 <==> queue@.contains(x as usize)),
            forall|i: int| 0 <= i < queue@.len() ==> indegree@[#[trigger] queue@[i] as int] == 0,
        decreases n - x0,
    {
        if indegree[x0] == 0 {
            let ghost before = queue@;
            queue.push_back(x0);
            proof {
                assert forall|x: int| 0 <= x < x0 + 1 implies (#[trigger] indegree@[x] == 0 <==> queue@.contains(
                    x as usize,
                )) by {
                    if before.contains(x as usize) {
                        let i = choose|i: int| 0 <= i < before.len() && before[i] == x as usize;
                        assert(queue@[i] == x as usize);
                    }
                    if queue@.contains(x as usize) && x < x0 {
                        let i = choose|i: int| 0 <= i < queue@.len() && queue@[i] == x as usize;
                        assert(i < before.len());
                        assert(before[i] == x as usize);
                    }
                    if x == x0 {
                        assert(queue@[before.len() as int] == x as usize);
                    }
                }
            }
        } else {
            proof {
                assert(!queue@.contains(x0 as usize));
            }
        }
        x0 = x0 + 1;
    }
    let mut order: Vec<usize> = Vec::new();
    proof {
        assert(order@ + queue@ =~= queue@);
        assert forall|x: int| 0 <= x < n && #[trigger] indegree@[x] == 0 implies order@.contains(x as usize)
            || queue@.contains(x as usize) by {}
        assert forall|i: int| 0 <= i < edges@.len() && queue@.contains((#[trigger] edges@[i]).1) implies order@.contains(
            edges@[i].0,
        ) by {
            let x = edges@[i].1;
            lemma_pending_zero(edges@, x, empty_done);
            let q = choose|q: int| 0 <= q < queue@.len() && queue@[q] == x;
            assert(indegree@[x as int] == 0);
        }
        assert(empty_done =~= order@);
        assert forall|a: int| 0 <= a < queue@.len() implies last_feeder(edges@, queue@, #[trigger] queue@[a]) == -1 by {
            let y = queue@[a];
            lemma_last_feeder(edges@, queue@, y);
            lemma_pending_zero(edges@, y, empty_done);
            assert(indegree@[y as int] == 0);
            if last_feeder(edges@, queue@, y) >= 0 {
                let i = choose|i: int| 0 <= i < edges@.len() && edges@[i] == (queue@[last_feeder(edges@, queue@, y)], y);
                assert(empty_done.contains(edges@[i].0));
            }
        }
        assert(sorted_by_feeder(edges@, order@ + queue@));
    }

    while queue.len() > 0
        invariant
            indegree@.len() == n,
            (order@ + queue@).no_duplicates(),
            forall|i: int| 0 <= i < (order@ + queue@).len() ==> #[trigger] (order@ + queue@)[i] < n,
            forall|x: int| 0 <= x < n ==> #[trigger] indegree@[x] == pending_into(edges@, x as usize, order@),
            forall|x: int|
                0 <= x < n && #[trigger] indegree@[x] == 0 ==> order@.contains(x as usize) || queue@.contains(
                    x as usize,
                ),
            forall|i: int| 0 <= i < queue@.len() ==> indegree@[#[trigger] queue@[i] as int] == 0,
            forall|i: int|
                0 <= i < edges@.len() && queue@.contains((#[trigger] edges@[i]).1) ==> order@.contains(
                    edges@[i].0,
                ),
            forall|i: int, b: int|
                0 <= i < edges@.len() && 0 <= b < order@.len() && #[trigger] order@[b] == (
                #[trigger] edges@[i]).1 ==> exists|a: int| 0 <= a < b && order@[a] == edges@[i].0,
            edges_well_formed(edges@, n),
            edges_sorted(edges@),
            sorted_by_feeder(edges@, order@ + queue@),
        decreases n - order@.len(),
    {
        proof {
            lemma_distinct_indices(order@ + queue@, n as int);
        }
        let ghost q_old = queue@;
        let current = queue.pop_front().unwrap();
        let ghost order_old = order@;
        let ghost queue_rest = queue@;
        order.push(current);
        proof {
            assert(q_old =~= seq![current] + queue_rest);
            assert(order@ + queue@ =~= order_old + q_old);
            assert((order_old + q_old)[order_old.len() as int] == current);
            assert(current < n);
            assert(!order_old.contains(current)) by {
                if order_old.contains(current) {
                    let a = choose|a: int| 0 <= a < order_old.len() && order_old[a] == current;
                    assert((order_old + q_old)[a] == current);
                }
            }
            assert forall|x: int|
                0 <= x < n && #[trigger] indegree@[x] == 0 implies order@.contains(x as usize)
                    || queue@.contains(x as usize) by {
                if order_old.contains(x as usize) {
                    let a = choose|a: int| 0 <= a < order_old.len() && order_old[a] == x as usize;
                    assert(order@[a] == x as usize);
                } else {
                    assert(q_old.contains(x as usize));
                    let i = choose|i: int| 0 <= i < q_old.len() && q_old[i] == x as usize;
                    if i == 0 {
                        assert(order@[order_old.len() as int] == x as usize);
                    } else {
                        assert(queue@[i - 1] == x as usize);
                    }
                }
            }
            assert forall|i: int| 0 <= i < queue@.len() implies indegree@[#[trigger] queue@[i] as int] == 0 by {
                assert(queue@[i] == q_old[i + 1]);
            }
            assert forall|i: int|
                0 <= i < edges@.len() && queue@.contains((#[trigger] edges@[i]).1) implies order@.contains(
                    edges@[i].0,
                ) by {
                let q = choose|q: int| 0 <= q < queue@.len() && queue@[q] == edges@[i].1;
                assert(q_old[q + 1] == edges@[i].1);
                assert(q_old.contains(edges@[i].1));
                let a = choose|a: int| 0 <= a < order_old.len() && order_old[a] == edges@[i].0;
                assert(order@[a] == edges@[i].0);
            }
            assert forall|i: int, b: int|
                0 <= i < edges@.len() && 0 <= b < order@.len() && #[trigger] order@[b] == (
                #[trigger] edges@[i]).1 implies exists|a: int| 0 <= a < b && order@[a] == edges@[i].0 by {
                if b < order_old.len() {
                    assert(order_old[b] == edges@[i].1);
                    let a = choose|a: int| 0 <= a < b && order_old[a] == edges@[i].0;
                    assert(order@[a] == edges@[i].0);
                } else {
                    assert(q_old[0] == edges@[i].1);
                    assert(q_old.contains(edges@[i].1));
                    let a = choose|a: int| 0 <= a < order_old.len() && order_old[a] == edges@[i].0;
                    assert(order@[a] == edges@[i].0);
                }
            }
        }
        proof {
            assert forall|q: int| 0 <= q < queue@.len() && has_edge(edges@, current, #[trigger] queue@[q]) implies exists|i: int|
                0 <= i < 0 && edges@[i] == (current, queue@[q]) by {
                let i = choose|i: int| 0 <= i < edges@.len() && edges@[i] == (current, queue@[q]);
                assert(q_old[q + 1] == queue@[q]);
                assert(q_old.contains(edges@[i].1));
            }
        }
        let mut k: usize = 0;
        while k < edges.len()
            invariant
                indegree@.len() == n,
                order@ == order_old.push(current),
                !order_old.contains(current),
                current < n,
                (order@ + queue@).no_duplicates(),
                forall|i: int| 0 <= i < (order@ + queue@).len() ==> #[trigger] (order@ + queue@)[i] < n,
                0 <= k <= edges@.len(),
                forall|x: int|
                    0 <= x < n ==> #[trigger] indegree@[x] == pending_into(edges@, x as usize, order_old)
                        - count_edge(edges@.take(k as int), current, x as usize),
                forall|x: int|
                    0 <= x < n && #[trigger] indegree@[x] == 0 ==> order@.contains(x as usize)
                        || queue@.contains(x as usize),
                forall|i: int| 0 <= i < queue@.len() ==> indegree@[#[trigger] queue@[i] as int] == 0,
                forall|i: int|
                    0 <= i < edges@.len() && queue@.contains((#[trigger] edges@[i]).1) ==> order@.contains(
                        edges@[i].0,
                    ),
                forall|i: int, b: int|
                    0 <= i < edges@.len() && 0 <= b < order@.len() && #[trigger] order@[b] == (
                    #[trigger] edges@[i]).1 ==> exists|a: int| 0 <= a < b && order@[a] == edges@[i].0,
                edges_well_formed(edges@, n),
                edges_sorted(edges@),
                sorted_by_feeder(edges@, order@ + queue@),
                forall|q: int|
                    0 <= q < queue@.len() && has_edge(edges@, current, #[trigger] queue@[q]) ==> exists|i: int|
                        0 <= i < k && edges@[i] == (current, queue@[q]),
            decreases edges@.len() - k,
        {
            let (from, to) = edges[k];
            let ghost ind_old = indegree@;
            proof {
                assert forall|x: int| 0 <= x < n implies #[trigger] count_edge(edges@.take(k + 1), current, x as usize)
                    == count_edge(edges@.take(k as int), current, x as usize) + if edges@[k as int] == (
                    current,
                    x as usize,
                ) {
                    1nat
                } else {
                    0nat
                } by {
                    lemma_count_step(edges@, k as int, current, x as usize);
                }
            }
            if from == current {
                proof {
                    lemma_count_prefix(edges@, k + 1, current, to);
                    lemma_pending_split(edges@, to, order_old, current);
                    lemma_count_step(edges@, k as int, current, to);
                    assert(edges@[k as int] == (current, to));
                    assert(count_edge(edges@.take(k + 1), current, to) == count_edge(
                        edges@.take(k as int),
                        current,
                        to,
                    ) + 1);
                    assert(ind_old[to as int] >= 1);
                }
                let d = indegree[to];
                indegree.set(to, d - 1);
                if d - 1 == 0 {
                    proof {
                        lemma_pending_zero(edges@, to, order@);
                        // `to` is neither started nor queued yet.
                        assert(!queue@.contains(to)) by {
                            if queue@.contains(to) {
                                let q = choose|q: int| 0 <= q < queue@.len() && queue@[q] == to;
                                assert(indegree@[queue@[q] as int] == 0);
                            }
                        }
                        assert(!order@.contains(to)) by {
                            if order@.contains(to) {
                                let b = choose|b: int| 0 <= b < order@.len() && order@[b] == to;
                                if b < order_old.len() {
                                    assert(order@[b] == edges@[k as int].1);
                                    let a = choose|a: int| 0 <= a < b && order@[a] == edges@[k as int].0;
                                    assert(order_old[a] == current);
                                } else {
                                    assert(to == current);
                                    assert(edges@[k as int].0 != edges@[k as int].1);
                                }
                            }
                        }
                    }
                    proof {
                        assert forall|i: int| 0 <= i < edges@.len() && (#[trigger] edges@[i]).1 == to implies order@.contains(
                            edges@[i].0,
                        ) by {}
                        lemma_next_in_queue(edges@, order@, queue@, current, to, k as int);
                        lemma_sorted_push(edges@, order@ + queue@, to);
                    }
                    let ghost q_before = queue@;
                    queue.push_back(to);
                    proof {
                        assert(order@ + queue@ =~= (order@ + q_before).push(to));
                        assert forall|q: int|
                            0 <= q < queue@.len() && has_edge(edges@, current, #[trigger] queue@[q]) implies exists|i: int|
                                0 <= i < k + 1 && edges@[i] == (current, queue@[q]) by {
                            if q < q_before.len() {
                                assert(queue@[q] == q_before[q]);
                            } else {
                                assert(edges@[k as int] == (current, queue@[q]));
                            }
                        }
                        assert(!(order@ + q_before).contains(to)) by {
                            if (order@ + q_before).contains(to) {
                                let i = choose|i: int| 0 <= i < (order@ + q_before).len() && (order@ + q_before)[i] == to;
                                if i < order@.len() {
                                    assert(order@[i] == to);
                                } else {
                                    assert(q_before[i - order@.len()] == to);
                                }
                            }
                        }
                        assert forall|i: int| 0 <= i < queue@.len() implies indegree@[#[trigger] queue@[i] as int] == 0 by {
                            if i < q_before.len() {
                                assert(queue@[i] == q_before[i]);
                                assert((order@ + q_before)[order@.len() + i] == q_before[i]);
                                assert(ind_old[q_before[i] as int] == 0);
                                assert(q_before.contains(q_before[i]));
                            }
                        }
                        assert forall|x: int|
                            0 <= x < n && #[trigger] indegree@[x] == 0 implies order@.contains(x as usize)
                                || queue@.contains(x as usize) by {
                            if x != to as int {
                                if q_before.contains(x as usize) {
                                    let i = choose|i: int| 0 <= i < q_before.len() && q_before[i] == x as usize;
                                    assert(queue@[i] == x as usize);
                                }
                            } else {
                                assert(queue@[q_before.len() as int] == to);
                            }
                        }
                        assert forall|i: int|
                            0 <= i < edges@.len() && queue@.contains((#[trigger] edges@[i]).1) implies order@.contains(
                                edges@[i].0,
                            ) by {
                            let y = edges@[i].1;
                            let q = choose|q: int| 0 <= q < queue@.len() && queue@[q] == y;
                            if q < q_before.len() {
                                assert(q_before[q] == y);
                            } else {
                                assert(y == to);
                            }
                        }
                    }
                } else {
                    proof {
                        assert forall|i: int| 0 <= i < queue@.len() implies indegree@[#[trigger] queue@[i] as int] == 0 by {
                            assert((order@ + queue@)[order@.len() + i] == queue@[i]);
                            assert(ind_old[queue@[i] as int] == 0);
                        }
                    }
                }
            } else {
                proof {
                    assert(edges@[k as int] != (current, to));
                }
            }
            k = k + 1;
        }
        proof {
            assert(edges@.take(edges@.len() as int) =~= edges@);
            assert forall|x: int| 0 <= x < n implies #[trigger] indegree@[x] == pending_into(edges@, x as usize, order@) by {
                lemma_pending_split(edges@, x as usize, order_old, current);
            }
        }
    }

    proof {
        assert(queue@ =~= Seq::<usize>::empty());
        assert(order@ + queue@ =~= order@);
        assert forall|x: usize| x < n && !#[trigger] order@.contains(x) implies pending_into(edges@, x, order@) > 0 by {
            assert(indegree@[x as int] != 0);
        }
        assert(sorted_by_feeder(edges@, order@));
    }
    order
}

/// Computes the order in which to start `services`: every service after the
/// services that provide its dependencies. Among such orders it is the
/// first-in-first-out one (`is_queue_order`), which is unique
/// (`lemma_queue_order_unique`).
///
/// It fails when a token is provided twice, when a dependency has no provider,
/// or when the dependencies form a cycle, checked in that order.
pub fn resolve_start_order(services: &[ServiceConfig]) -> (res: Result<Vec<usize>, DepsError>)
    ensures
        match res {
            Ok(order) => {
                &&& unique_providers(services@)
                &&& all_dependencies_provided(services@)
                &&& is_start_order(services@, order@)
                &&& is_queue_order(services@, order@)
            },
            Err(e) => refusal_explained(services@, e),
        },
{
    let n = services.len();
    if n == 0 {
        let empty: Vec<usize> = Vec::new();
        proof {
            assert(unique_providers(services@));
            assert(all_dependencies_provided(services@));
        }
        return Ok(empty);
    }
    match check_unique_providers(services) {
        Ok(()) => {},
        Err(e) => {
            return Err(e);
        },
    }
    let (edges, indegree) = match dependency_edges(services) {
        Ok(pair) => pair,
        Err(e) => {
            return Err(e);
        },
    };
    proof {
        assert(edges_well_formed(edges@, n));
    }
    let order = kahn_order(n, &edges, indegree);
    if order.len() != n {
        proof {
            lemma_distinct_indices(order@, n as int);
            let u = choose|u: usize| u < n && !order@.contains(u);
            assert forall|ord: Seq<usize>| !is_start_order(services@, ord) by {
                if is_start_order(services@, ord) {
                    lemma_distinct_indices(ord, n as int);
                    assert(ord.contains(u));
                    let ku = choose|ku: int| 0 <= ku < ord.len() && ord[ku] == u;
                    let m = lemma_first_outside(ord, order@, ku);
                    let v = ord[m];
                    assert(!order@.contains(v));
                    assert(pending_into(edges@, v, order@) > 0);
                    lemma_pending_zero(edges@, v, order@);
                    let i = choose|i: int|
                        0 <= i < edges@.len() && #[trigger] edges@[i].1 == v && !order@.contains(edges@[i].0);
                    let p = edges@[i].0;
                    assert(ord.contains(p));
                    let m2 = choose|m2: int| 0 <= m2 < ord.len() && ord[m2] == p;
                    assert(!order@.contains(ord[m2]));
                    assert(m2 >= m);
                    assert(depends_on(services@, v as int, p as int));
                    assert(m2 != m);
                    assert(!depends_on(services@, ord[m] as int, ord[m2] as int));
                }
            }
        }
        return Err(DepsError::Cycle);
    }
    proof {
        assert forall|a: int, b: int| 0 <= a < b < order@.len() implies !depends_on(
            services@,
            #[trigger] order@[a] as int,
            #[trigger] order@[b] as int,
        ) by {
            let x = order@[a] as int;
            let p = order@[b] as int;
            if depends_on(services@, x, p) {
                let j = choose|j: int|
                    0 <= j < services@[x].depends@.len() && provider_of(services@, #[trigger] dep_view(services@, x, j)) == p;
                assert(has_provider(services@, dep_view(services@, x, j)));
                let i = choose|i: int|
                    0 <= i < edges@.len() && #[trigger] edges@[i] == (
                        provider_of(services@, dep_view(services@, x, j)) as usize,
                        x as usize,
                    );
                assert(order@[a] == edges@[i].1);
                let a2 = choose|a2: int| 0 <= a2 < a && order@[a2] == edges@[i].0;
                assert(order@[a2] == order@[b]);
            }
        }
        assert forall|y: usize| y < n implies last_feeder(edges@, order@, y) == #[trigger] last_dependency_position(
            services@,
            order@,
            y as int,
        ) by {
            assert forall|a: int| 0 <= a < order@.len() implies (has_edge(edges@, #[trigger] order@[a], y)
                <==> depends_on(services@, y as int, order@[a] as int)) by {
                let p = order@[a];
                if has_edge(edges@, p, y) {
                    let i = choose|i: int| 0 <= i < edges@.len() && edges@[i] == (p, y);
                    assert(depends_on(services@, edges@[i].1 as int, edges@[i].0 as int));
                }
                if depends_on(services@, y as int, p as int) {
                    let j = choose|j: int|
                        0 <= j < services@[y as int].depends@.len() && provider_of(services@, #[trigger] dep_view(services@, y as int, j))
                            == p as int;
                    let i = choose|i: int|
                        0 <= i < edges@.len() && #[trigger] edges@[i] == (
                            provider_of(services@, dep_view(services@, y as int, j)) as usize,
                            y,
                        );
                    assert(edges@[i] == (p, y));
                }
            }
            lemma_rank_translation(services@, edges@, order@, y);
        }
        assert forall|a: int, b: int| 0 <= a < b < order@.len() implies rank_less(
            start_rank(services@, order@, #[trigger] order@[a] as int),
            start_rank(services@, order@, #[trigger] order@[b] as int),
        ) by {
            assert(rank_less(feeder_key(edges@, order@, order@[a]), feeder_key(edges@, order@, order@[b])));
            assert(last_dependency_position(services@, order@, order@[a] as int) == last_feeder(edges@, order@, order@[a]));
            assert(last_dependency_position(services@, order@, order@[b] as int) == last_feeder(edges@, order@, order@[b]));
        }
    }
    Ok(order)
}

} // verus!
