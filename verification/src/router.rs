//! Client-side routing decisions: splitting paths into segments, matching a
//! path against `:param` patterns, collecting the parameters, turning the
//! location hash into a path and choosing how to navigate.
//!
//! Reading the browser location and rendering views are left to the caller,
//! which hands the location's text in and acts on the outcome.

use vstd::prelude::*;
use crate::text::{chars_of, pieces, push_char, same_chars, split_pieces, string_after, string_from_chars, Separator};

verus! {

/// The non-empty pieces of `s` between `/` characters, in order.
pub open spec fn segments(s: Seq<char>) -> Seq<Seq<char>> {
    pieces(s, Separator::Slash)
}

/// The segments of `s`, each as its characters.
fn segments_of(s: &str) -> (r: Vec<Vec<char>>)
    ensures
        r@.map_values(|v: Vec<char>| v@) == segments(s@),
{
    let chars = chars_of(s);
    split_pieces(&chars, Separator::Slash)
}

/// A `:name` segment, which matches any path segment.
pub open spec fn is_param(seg: Seq<char>) -> bool {
    seg.len() > 0 && seg[0] == ':'
}

/// Whether path segments `path` fit pattern segments `pat`: as many of them,
/// and each equal to its pattern segment unless that is a parameter.
pub open spec fn segments_fit(pat: Seq<Seq<char>>, path: Seq<Seq<char>>) -> bool {
    &&& pat.len() == path.len()
    &&& forall|i: int| 0 <= i < pat.len() ==> is_param(#[trigger] pat[i]) || pat[i] == path[i]
}

/// Whether `path` matches the route pattern `pattern`.
pub open spec fn route_matches(pattern: Seq<char>, path: Seq<char>) -> bool {
    segments_fit(segments(pattern), segments(path))
}

/// The (name, value) pairs of the first `n` segment pairs, in order: one
/// for each parameter segment, named without its `:`.
pub open spec fn param_pairs(pat: Seq<Seq<char>>, path: Seq<Seq<char>>, n: nat) -> Seq<
    (Seq<char>, Seq<char>),
>
    decreases n,
{
    if n == 0 {
        seq![]
    } else {
        let before = param_pairs(pat, path, (n - 1) as nat);
        if is_param(pat[n - 1]) {
            before.push((pat[n - 1].drop_first(), path[n - 1]))
        } else {
            before
        }
    }
}

/// The parameters that `pattern` takes from `path`, segment by segment as
/// far as both reach.
pub open spec fn route_params(pattern: Seq<char>, path: Seq<char>) -> Seq<(Seq<char>, Seq<char>)> {
    let p = segments(pattern);
    let q = segments(path);
    param_pairs(p, q, if p.len() <= q.len() { p.len() } else { q.len() })
}

/// The map that inserting `pairs` in order builds: a later value for a name
/// replaces an earlier one.
pub open spec fn pairs_map(pairs: Seq<(Seq<char>, Seq<char>)>) -> Map<Seq<char>, Seq<char>>
    decreases pairs.len(),
{
    if pairs.len() == 0 {
        Map::empty()
    } else {
        pairs_map(pairs.drop_last()).insert(pairs.last().0, pairs.last().1)
    }
}

/// Checks whether `path` matches the route pattern `pattern`; `:name`
/// segments match any segment.
pub fn matches_route(pattern: &str, path: &str) -> (r: bool)
    ensures
        r == route_matches(pattern@, path@),
{
    let pat = segments_of(pattern);
    let pth = segments_of(path);
    let ghost ps = pat@.map_values(|v: Vec<char>| v@);
    let ghost qs = pth@.map_values(|v: Vec<char>| v@);
    if pat.len() != pth.len() {
        return false;
    }
    let mut i: usize = 0;
    while i < pat.len()
        invariant
            ps == pat@.map_values(|v: Vec<char>| v@),
            qs == pth@.map_values(|v: Vec<char>| v@),
            ps == segments(pattern@),
            qs == segments(path@),
            pat.len() == pth.len(),
            i <= pat.len(),
            forall|j: int| 0 <= j < i ==> is_param(#[trigger] ps[j]) || ps[j] == qs[j],
        decreases pat.len() - i,
    {
        assert(ps[i as int] == pat@[i as int]@ && qs[i as int] == pth@[i as int]@);
        let param = pat[i].len() > 0 && pat[i][0] == ':';
        if !param && !same_chars(&pat[i], &pth[i]) {
            assert(!(is_param(ps[i as int]) || ps[i as int] == qs[i as int]));
            return false;
        }
        i = i + 1;
    }
    true
}

/// Named route parameters, such as `id` for the pattern `/user/:id`.
pub struct Params {
    entries: Vec<(String, String)>,
}

impl Params {
    /// The (name, value) pairs in the order they were inserted.
    pub closed spec fn pairs(&self) -> Seq<(Seq<char>, Seq<char>)> {
        self.entries@.map_values(|e: (String, String)| (e.0@, e.1@))
    }

    /// No parameters.
    pub fn new() -> (p: Params)
        ensures
            p.pairs() == Seq::<(Seq<char>, Seq<char>)>::empty(),
            p@ == Map::<Seq<char>, Seq<char>>::empty(),
    {
        let p = Params { entries: Vec::new() };
        assert(p.pairs() =~= Seq::<(Seq<char>, Seq<char>)>::empty());
        p
    }

    /// Sets parameter `name` to `value`, replacing any earlier value.
    pub fn insert(&mut self, name: String, value: String)
        ensures
            final(self).pairs() == old(self).pairs().push((name@, value@)),
            final(self)@ == old(self)@.insert(name@, value@),
    {
        let ghost n = name@;
        let ghost v = value@;
        self.entries.push((name, value));
        assert(self.pairs() =~= old(self).pairs().push((n, v)));
        assert(self.pairs().drop_last() =~= old(self).pairs());
    }

    /// The value of parameter `name`, if it has one.
    pub fn get(&self, name: &str) -> (r: Option<&String>)
        ensures
            r is Some <==> self@.contains_key(name@),
            r is Some ==> r->0@ == self@[name@],
    {
        let key = String::from_str(name);
        let mut i: usize = self.entries.len();
        while i > 0
            invariant
                key@ == name@,
                i <= self.entries.len(),
                forall|j: int| i <= j < self.entries@.len() ==> (#[trigger] self.pairs()[j]).0 != name@,
            decreases i,
        {
            let k = i - 1;
            if self.entries[k].0 == key {
                proof {
                    lemma_pairs_map_tail(self.pairs(), k as int, name@);
                }
                return Some(&self.entries[k].1);
            }
            assert(self.pairs()[k as int].0 != name@);
            i = k;
        }
        proof {
            lemma_pairs_map_tail(self.pairs(), -1, name@);
        }
        None
    }

    /// A copy of these parameters.
    pub fn duplicate(&self) -> (r: Params)
        ensures
            r.pairs() == self.pairs(),
            r@ == self@,
    {
        let mut entries: Vec<(String, String)> = Vec::new();
        let mut i: usize = 0;
        while i < self.entries.len()
            invariant
                i <= self.entries.len(),
                entries@.map_values(|e: (String, String)| (e.0@, e.1@)) == self.pairs().take(i as int),
            decreases self.entries.len() - i,
        {
            let name = self.entries[i].0.clone();
            let value = self.entries[i].1.clone();
            let ghost before = entries@.map_values(|e: (String, String)| (e.0@, e.1@));
            entries.push((name, value));
            assert(entries@.map_values(|e: (String, String)| (e.0@, e.1@)) =~= before.push(self.pairs()[i as int]));
            assert(self.pairs().take(i + 1) =~= self.pairs().take(i as int).push(self.pairs()[i as int]));
            i = i + 1;
        }
        assert(self.pairs().take(self.entries.len() as int) =~= self.pairs());
        Params { entries }
    }

    /// The (name, value) pairs in the order they were inserted.
    pub fn entries(&self) -> (r: &Vec<(String, String)>)
        ensures
            r@.map_values(|e: (String, String)| (e.0@, e.1@)) == self.pairs(),
    {
        &self.entries
    }
}

impl View for Params {
    type V = Map<Seq<char>, Seq<char>>;

    open spec fn view(&self) -> Map<Seq<char>, Seq<char>> {
        pairs_map(self.pairs())
    }
}

/// Collects the parameters that `pattern` takes from `path`: for each
/// `:name` segment of the pattern, `name` and the path segment at the same
/// position, as far as both have segments.
pub fn extract_params(pattern: &str, path: &str) -> (p: Params)
    ensures
        p.pairs() == route_params(pattern@, path@),
        p@ == pairs_map(route_params(pattern@, path@)),
{
    let pat = segments_of(pattern);
    let pth = segments_of(path);
    let ghost ps = pat@.map_values(|v: Vec<char>| v@);
    let ghost qs = pth@.map_values(|v: Vec<char>| v@);
    let n = if pat.len() <= pth.len() { pat.len() } else { pth.len() };
    let mut params = Params::new();
    let mut i: usize = 0;
    while i < n
        invariant
            ps == pat@.map_values(|v: Vec<char>| v@),
            qs == pth@.map_values(|v: Vec<char>| v@),
            n <= pat.len(),
            n <= pth.len(),
            i <= n,
            params.pairs() == param_pairs(ps, qs, i as nat),
        decreases n - i,
    {
        assert(ps[i as int] == pat@[i as int]@ && qs[i as int] == pth@[i as int]@);
        if pat[i].len() > 0 && pat[i][0] == ':' {
            let name = string_after(&pat[i], 1);
            let value = string_from_chars(&pth[i]);
            assert(name@ =~= ps[i as int].drop_first());
            params.insert(name, value);
        }
        i = i + 1;
    }
    params
}

/// Routing mode.
#[derive(Clone, Copy, PartialEq, Eq, Structural, Debug)]
pub enum RouterMode {
    /// Uses the URL hash (`#/path`).
    Hash,
    /// Uses the History API (`pushState`).
    History,
}

/// Whether `s` begins with `#`.
pub open spec fn starts_with_hash(s: Seq<char>) -> bool {
    s.len() > 0 && s[0] == '#'
}

/// The route path that a location hash names: the hash without its `#`,
/// or `/` when nothing is left.
pub open spec fn hash_path(hash: Seq<char>) -> Seq<char> {
    let p = if starts_with_hash(hash) { hash.drop_first() } else { hash };
    if p.len() == 0 { seq!['/'] } else { p }
}

/// Whether `s` begins with `#` (`str::starts_with('#')`).
fn begins_with_hash(s: &str) -> (r: bool)
    ensures
        r == starts_with_hash(s@),
{
    let chars = chars_of(s);
    chars.len() > 0 && chars[0] == '#'
}

/// The route path of a location hash: `"#/about"` gives `"/about"`, and an
/// empty hash (or `"#"`) gives `"/"`.
pub fn path_from_hash(hash: &str) -> (r: String)
    ensures
        r@ == hash_path(hash@),
{
    let chars = chars_of(hash);
    let start: usize = if chars.len() > 0 && chars[0] == '#' { 1 } else { 0 };
    if start == chars.len() {
        let mut root = String::new();
        push_char(&mut root, '/');
        assert(root@ =~= seq!['/']);
        root
    } else {
        let r = string_after(&chars, start);
        assert(start == 1 ==> r@ =~= hash@.drop_first());
        assert(start == 0 ==> r@ =~= hash@);
        r
    }
}

/// The routing mode that a location hash shows is in use: `Hash` when the
/// hash begins with `#`.
pub fn mode_for_hash(hash: &str) -> (m: RouterMode)
    ensures
        m == (if starts_with_hash(hash@) { RouterMode::Hash } else { RouterMode::History }),
{
    if begins_with_hash(hash) {
        RouterMode::Hash
    } else {
        RouterMode::History
    }
}

/// How to carry out a navigation.
pub enum Navigation {
    /// Set the location hash to this value.
    SetHash(String),
    /// Push this path onto the history and announce the change.
    PushState(String),
}

/// The navigation to `path` when the location hash is `current_hash`: hash
/// mode when either begins with `#` (the new hash is `path`, with a `#` put
/// in front where it has none), history mode otherwise.
pub fn navigation(current_hash: &str, path: &str) -> (n: Navigation)
    ensures
        starts_with_hash(current_hash@) || starts_with_hash(path@) ==> n is SetHash && n->SetHash_0@
            == (if starts_with_hash(path@) { path@ } else { seq!['#'] + path@ }),
        !(starts_with_hash(current_hash@) || starts_with_hash(path@)) ==> n is PushState
            && n->PushState_0@ == path@,
{
    let in_hash = begins_with_hash(path);
    if begins_with_hash(current_hash) || in_hash {
        if in_hash {
            Navigation::SetHash(String::from_str(path))
        } else {
            let mut h = String::new();
            push_char(&mut h, '#');
            h.append(path);
            assert(h@ =~= seq!['#'] + path@);
            Navigation::SetHash(h)
        }
    } else {
        Navigation::PushState(String::from_str(path))
    }
}

/// A route: a path pattern and the view shown when it matches.
pub struct Route<W> {
    pub path: String,
    pub view: W,
}

/// A route for `path` showing `view`.
pub fn route<W>(path: &str, view: W) -> (r: Route<W>)
    ensures
        r.path@ == path@,
        r.view == view,
{
    Route { path: String::from_str(path), view }
}

/// The text shown when no route matches `path`.
pub open spec fn not_found_message(path: Seq<char>) -> Seq<char> {
    "404 — No route matches: "@ + path
}

/// What the router outlet shows.
pub enum RouteMatch {
    /// The route at this position matched.
    Found(usize),
    /// No route matched; the message to show.
    NotFound(String),
}

/// A router: its routes, the current path and the parameters of the route
/// that matched it.
pub struct Router<W> {
    mode: RouterMode,
    routes: Vec<Route<W>>,
    current_path: String,
    params: Params,
}

impl<W> Router<W> {
    /// The route patterns, in order.
    pub closed spec fn patterns(&self) -> Seq<Seq<char>> {
        self.routes@.map_values(|r: Route<W>| r.path@)
    }

    /// The views of the routes, in order.
    pub closed spec fn views(&self) -> Seq<W> {
        self.routes@.map_values(|r: Route<W>| r.view)
    }

    /// The current path.
    pub closed spec fn path(&self) -> Seq<char> {
        self.current_path@
    }

    /// The parameters of the last route shown.
    pub closed spec fn params(&self) -> Map<Seq<char>, Seq<char>> {
        self.params@
    }

    /// The routing mode.
    pub closed spec fn routing_mode(&self) -> RouterMode {
        self.mode
    }

    /// A router over `routes` in `mode`, at `initial_path`, with no
    /// parameters yet.
    pub fn new(mode: RouterMode, routes: Vec<Route<W>>, initial_path: String) -> (r: Self)
        ensures
            r.routing_mode() == mode,
            r.patterns() == routes@.map_values(|x: Route<W>| x.path@),
            r.views() == routes@.map_values(|x: Route<W>| x.view),
            r.path() == initial_path@,
            r.params() == Map::<Seq<char>, Seq<char>>::empty(),
    {
        Router { mode, routes, current_path: initial_path, params: Params::new() }
    }

    /// The routing mode.
    pub fn mode(&self) -> (m: RouterMode)
        ensures
            m == self.routing_mode(),
    {
        self.mode
    }

    /// The current path.
    pub fn current(&self) -> (p: &String)
        ensures
            p@ == self.path(),
    {
        &self.current_path
    }

    /// The number of routes.
    pub fn route_count(&self) -> (n: usize)
        ensures
            n == self.patterns().len(),
            n == self.views().len(),
    {
        self.routes.len()
    }

    /// The view of route `i`.
    pub fn view_of(&self, i: usize) -> (v: &W)
        requires
            i < self.views().len(),
        ensures
            *v == self.views()[i as int],
    {
        &self.routes[i].view
    }

    /// Moves to `path` (the location changed).
    pub fn set_path(&mut self, path: String)
        ensures
            final(self).path() == path@,
            final(self).patterns() == old(self).patterns(),
            final(self).views() == old(self).views(),
            final(self).params() == old(self).params(),
            final(self).routing_mode() == old(self).routing_mode(),
    {
        self.current_path = path;
    }

    /// Decides what the outlet shows for the current path: the first route
    /// whose pattern matches, with its parameters stored; or, when none
    /// matches, the not-found message, with no parameters.
    pub fn resolve(&mut self) -> (m: RouteMatch)
        ensures
            final(self).path() == old(self).path(),
            final(self).patterns() == old(self).patterns(),
            final(self).views() == old(self).views(),
            final(self).routing_mode() == old(self).routing_mode(),
            match m {
                RouteMatch::Found(i) => {
                    &&& i < old(self).patterns().len()
                    &&& route_matches(old(self).patterns()[i as int], old(self).path())
                    &&& forall|j: int| 0 <= j < i ==> !route_matches(#[trigger] old(self).patterns()[j], old(self).path())
                    &&& final(self).params() == pairs_map(route_params(old(self).patterns()[i as int], old(self).path()))
                },
                RouteMatch::NotFound(msg) => {
                    &&& forall|j: int| 0 <= j < old(self).patterns().len() ==> !route_matches(#[trigger] old(self).patterns()[j], old(self).path())
                    &&& msg@ == not_found_message(old(self).path())
                    &&& final(self).params() == Map::<Seq<char>, Seq<char>>::empty()
                },
            },
    {
        self.params = Params::new();
        let mut i: usize = 0;
        while i < self.routes.len()
            invariant
                i <= self.routes.len(),
                self.current_path == old(self).current_path,
                self.routes == old(self).routes,
                self.mode == old(self).mode,
                self.params@ == Map::<Seq<char>, Seq<char>>::empty(),
                forall|j: int| 0 <= j < i ==> !route_matches(#[trigger] self.patterns()[j], self.path()),
            decreases self.routes.len() - i,
        {
            assert(self.patterns()[i as int] == self.routes@[i as int].path@);
            if matches_route(self.routes[i].path.as_str(), self.current_path.as_str()) {
                self.params = extract_params(self.routes[i].path.as_str(), self.current_path.as_str());
                return RouteMatch::Found(i);
            }
            i = i + 1;
        }
        let mut msg = String::from_str("404 — No route matches: ");
        msg.append(self.current_path.as_str());
        RouteMatch::NotFound(msg)
    }

    /// The value of parameter `name` of the route shown, or the empty
    /// string when it has none.
    pub fn use_param(&self, name: &str) -> (v: String)
        ensures
            v@ == (if self.params().contains_key(name@) { self.params()[name@] } else { Seq::<char>::empty() }),
    {
        match self.params.get(name) {
            Some(v) => v.clone(),
            None => String::new(),
        }
    }

    /// All parameters of the route shown.
    pub fn use_params(&self) -> (p: Params)
        ensures
            p@ == self.params(),
    {
        self.params.duplicate()
    }
}

/// A path always matches itself taken as a pattern.
pub proof fn law_path_matches_itself(path: Seq<char>)
    ensures
        route_matches(path, path),
{
}

/// Navigating in hash mode to a path that does not begin with `#` sets a
/// hash from which the router reads that same path back.
pub proof fn law_hash_navigation_round_trip(path: Seq<char>)
    requires
        path.len() > 0,
        !starts_with_hash(path),
    ensures
        hash_path(seq!['#'] + path) == path,
{
    assert((seq!['#'] + path).drop_first() =~= path);
}

/// When no pair after position `k` is named `name`, the map of `pairs`
/// gives `name` the value at `k` (or, for `k == -1`, has no `name`).
proof fn lemma_pairs_map_tail(pairs: Seq<(Seq<char>, Seq<char>)>, k: int, name: Seq<char>)
    requires
        -1 <= k < pairs.len(),
        k >= 0 ==> pairs[k].0 == name,
        forall|j: int| k < j < pairs.len() ==> (#[trigger] pairs[j]).0 != name,
    ensures
        k >= 0 ==> pairs_map(pairs).contains_key(name) && pairs_map(pairs)[name] == pairs[k].1,
        k < 0 ==> !pairs_map(pairs).contains_key(name),
    decreases pairs.len(),
{
    if pairs.len() == 0 {
    } else if k == pairs.len() - 1 {
    } else {
        let shorter = pairs.drop_last();
        assert forall|j: int| k < j < shorter.len() implies (#[trigger] shorter[j]).0 != name by {
            assert(shorter[j] == pairs[j]);
        }
        assert(pairs[pairs.len() - 1].0 != name);
        if k >= 0 {
            assert(shorter[k] == pairs[k]);
        }
        lemma_pairs_map_tail(shorter, k, name);
    }
}

} // verus!
