//! The route table: (method, path pattern) to handler, with named path
//! parameters (`:name` segments) and most-specific-literal-wins lookup.
use vstd::prelude::*;
use crate::bytes::{append_bytes, bytes_eq, to_vec};
use crate::entries::{pairs_to_map, pairs_view, Pair};

verus! {

/// The byte `/`.
pub const SLASH: u8 = 47;

/// The byte `:` that opens a parameter segment.
pub const COLON: u8 = 58;

/// The segments of a path: the pieces between `/` bytes, so `/a/b` gives
/// `""`, `"a"`, `"b"`.
pub open spec fn split_path(s: Seq<u8>) -> Seq<Seq<u8>>
    decreases s.len(),
{
    if s.len() == 0 {
        seq![Seq::empty()]
    } else {
        let rest = split_path(s.drop_last());
        if s.last() == SLASH {
            rest.push(Seq::empty())
        } else {
            rest.update(rest.len() - 1, rest.last().push(s.last()))
        }
    }
}

proof fn lemma_split_path_nonempty(s: Seq<u8>)
    ensures
        split_path(s).len() >= 1,
    decreases s.len(),
{
    if s.len() > 0 {
        lemma_split_path_nonempty(s.drop_last());
    }
}

/// The plain-value view of a list of segments.
pub open spec fn segs_view(v: Seq<Vec<u8>>) -> Seq<Seq<u8>> {
    v.map_values(|s: Vec<u8>| s@)
}

/// Splits `path` at each `/`.
pub fn split_segments(path: &[u8]) -> (r: Vec<Vec<u8>>)
    ensures
        segs_view(r@) == split_path(path@),
{
    let mut done: Vec<Vec<u8>> = Vec::new();
    let mut cur: Vec<u8> = Vec::new();
    let mut i: usize = 0;
    assert(path@.subrange(0, 0) =~= Seq::<u8>::empty());
    assert(segs_view(done@).push(cur@) =~= split_path(Seq::<u8>::empty()));
    while i < path.len()
        invariant
            i <= path@.len(),
            segs_view(done@).push(cur@) == split_path(path@.subrange(0, i as int)),
        decreases path@.len() - i,
    {
        let ghost prev = path@.subrange(0, i as int);
        let ghost next = path@.subrange(0, i + 1);
        assert(next.drop_last() =~= prev);
        assert(next.last() == path@[i as int]);
        proof {
            lemma_split_path_nonempty(prev);
        }
        if path[i] == SLASH {
            let ghost before = done@;
            let finished = cur;
            done.push(finished);
            cur = Vec::new();
            assert(segs_view(done@) =~= segs_view(before).push(finished@));
            assert(segs_view(done@).push(cur@) =~= split_path(next));
        } else {
            cur.push(path[i]);
            assert(segs_view(done@).push(cur@) =~= split_path(next));
        }
        i = i + 1;
    }
    assert(path@.subrange(0, path@.len() as int) =~= path@);
    let ghost before = done@;
    done.push(cur);
    assert(segs_view(done@) =~= segs_view(before).push(cur@));
    done
}

/// A parameter segment: `:` followed by the parameter's name.
pub open spec fn is_param(seg: Seq<u8>) -> bool {
    seg.len() > 0 && seg[0] == COLON
}

/// A pattern segment accepts a path segment: a parameter accepts any
/// non-empty one, a literal only itself.
pub open spec fn seg_matches(p: Seq<u8>, q: Seq<u8>) -> bool {
    if is_param(p) {
        q.len() > 0
    } else {
        p == q
    }
}

/// The pattern accepts the path, segment by segment.
pub open spec fn pattern_matches(pat: Seq<Seq<u8>>, path: Seq<Seq<u8>>) -> bool {
    pat.len() == path.len() && forall|i: int| 0 <= i < pat.len() ==> seg_matches(#[trigger] pat[i], path[i])
}

/// Whether `pat` accepts `path`.
pub fn matches(pat: &Vec<Vec<u8>>, path: &Vec<Vec<u8>>) -> (r: bool)
    ensures
        r == pattern_matches(segs_view(pat@), segs_view(path@)),
{
    let ghost p = segs_view(pat@);
    let ghost q = segs_view(path@);
    if pat.len() != path.len() {
        return false;
    }
    let mut i: usize = 0;
    while i < pat.len()
        invariant
            pat@.len() == path@.len(),
            p == segs_view(pat@),
            q == segs_view(path@),
            i <= pat@.len(),
            forall|j: int| 0 <= j < i ==> seg_matches(#[trigger] p[j], q[j]),
        decreases pat@.len() - i,
    {
        let ps = &pat[i];
        let qs = &path[i];
        assert(p[i as int] == ps@ && q[i as int] == qs@);
        let ok = if ps.len() > 0 && ps[0] == COLON {
            qs.len() > 0
        } else {
            bytes_eq(ps.as_slice(), qs.as_slice())
        };
        if !ok {
            return false;
        }
        i = i + 1;
    }
    true
}

/// From position `k` on, `a` is more specific than `b`: at the first position
/// where one has a literal segment and the other a parameter, `a` has the literal.
pub open spec fn beats_from(a: Seq<Seq<u8>>, b: Seq<Seq<u8>>, k: int) -> bool
    decreases a.len() - k,
{
    if k < 0 || k >= a.len() || k >= b.len() {
        false
    } else if is_param(a[k]) == is_param(b[k]) {
        beats_from(a, b, k + 1)
    } else {
        !is_param(a[k])
    }
}

/// Pattern `a` is strictly more specific than pattern `b`.
pub open spec fn beats(a: Seq<Seq<u8>>, b: Seq<Seq<u8>>) -> bool {
    beats_from(a, b, 0)
}

proof fn lemma_beats_asym(a: Seq<Seq<u8>>, b: Seq<Seq<u8>>, k: int)
    requires
        beats_from(a, b, k),
    ensures
        !beats_from(b, a, k),
    decreases a.len() - k,
{
    if 0 <= k < a.len() && k < b.len() && is_param(a[k]) == is_param(b[k]) {
        lemma_beats_asym(a, b, k + 1);
    }
}

/// Among patterns of one length, "more specific" is a strict total order up
/// to ties: if `x` beats `y` and `z` does not, `x` beats `z`.
proof fn lemma_beats_order(x: Seq<Seq<u8>>, y: Seq<Seq<u8>>, z: Seq<Seq<u8>>, k: int)
    requires
        x.len() == y.len(),
        y.len() == z.len(),
        0 <= k,
        beats_from(x, y, k),
        !beats_from(z, y, k),
    ensures
        beats_from(x, z, k),
    decreases x.len() - k,
{
    if k < x.len() && is_param(x[k]) == is_param(y[k]) && is_param(z[k]) == is_param(y[k]) {
        lemma_beats_order(x, y, z, k + 1);
    }
}

/// Whether pattern `a` is strictly more specific than pattern `b`.
pub fn more_specific(a: &Vec<Vec<u8>>, b: &Vec<Vec<u8>>) -> (r: bool)
    ensures
        r == beats(segs_view(a@), segs_view(b@)),
{
    let ghost sa = segs_view(a@);
    let ghost sb = segs_view(b@);
    let mut k: usize = 0;
    while k < a.len() && k < b.len()
        invariant
            sa == segs_view(a@),
            sb == segs_view(b@),
            k <= a@.len(),
            beats(sa, sb) == beats_from(sa, sb, k as int),
        decreases a@.len() - k,
    {
        assert(sa[k as int] == a@[k as int]@ && sb[k as int] == b@[k as int]@);
        let pa = a[k].len() > 0 && a[k][0] == COLON;
        let pb = b[k].len() > 0 && b[k][0] == COLON;
        if pa != pb {
            return !pa;
        }
        k = k + 1;
    }
    false
}

/// The header name under which a parameter's value reaches the handler:
/// `x-moc-path-param-` followed by the parameter's name.
pub open spec fn param_header_name(seg: Seq<u8>) -> Seq<u8> {
    param_header_prefix() + seg.drop_first()
}

/// The bytes of `x-moc-path-param-`.
pub open spec fn param_header_prefix() -> Seq<u8> {
    seq![120u8, 45, 109, 111, 99, 45, 112, 97, 116, 104, 45, 112, 97, 114, 97, 109, 45]
}

/// The synthetic headers that a match binds: one per parameter segment of
/// `pat`, in order, holding the path's segment at that position.
pub open spec fn param_bindings(pat: Seq<Seq<u8>>, path: Seq<Seq<u8>>) -> Seq<Pair>
    decreases pat.len(),
{
    if pat.len() == 0 {
        Seq::empty()
    } else {
        let rest = param_bindings(pat.drop_last(), path);
        if is_param(pat.last()) {
            rest.push((param_header_name(pat.last()), path[pat.len() - 1]))
        } else {
            rest
        }
    }
}

fn header_name_for(seg: &Vec<u8>) -> (r: Vec<u8>)
    requires
        seg@.len() > 0,
    ensures
        r@ == param_header_name(seg@),
{
    let mut r: Vec<u8> = Vec::new();
    append_bytes(&mut r, "x-moc-path-param-".as_bytes());
    proof {
        reveal_strlit("x-moc-path-param-");
        vstd::string::is_ascii_spec_bytes("x-moc-path-param-");
        assert(r@ =~= param_header_prefix());
    }
    let mut i: usize = 1;
    while i < seg.len()
        invariant
            1 <= i <= seg@.len(),
            r@ == param_header_prefix() + seg@.subrange(1, i as int),
        decreases seg@.len() - i,
    {
        r.push(seg[i]);
        i = i + 1;
        assert(r@ =~= param_header_prefix() + seg@.subrange(1, i as int));
    }
    assert(seg@.subrange(1, seg@.len() as int) =~= seg@.drop_first());
    r
}

/// The synthetic headers that `pat` binds when it accepts `path`.
pub fn bind_params(pat: &Vec<Vec<u8>>, path: &Vec<Vec<u8>>) -> (r: Vec<(Vec<u8>, Vec<u8>)>)
    requires
        pat@.len() == path@.len(),
    ensures
        pairs_view(r@) == param_bindings(segs_view(pat@), segs_view(path@)),
{
    let ghost p = segs_view(pat@);
    let ghost q = segs_view(path@);
    let mut out: Vec<(Vec<u8>, Vec<u8>)> = Vec::new();
    let mut i: usize = 0;
    assert(p.subrange(0, 0) =~= Seq::<Seq<u8>>::empty());
    assert(pairs_view(out@) =~= Seq::<Pair>::empty());
    while i < pat.len()
        invariant
            pat@.len() == path@.len(),
            p == segs_view(pat@),
            q == segs_view(path@),
            i <= pat@.len(),
            pairs_view(out@) == param_bindings(p.subrange(0, i as int), q),
        decreases pat@.len() - i,
    {
        let ghost sub = p.subrange(0, i + 1);
        assert(sub.drop_last() =~= p.subrange(0, i as int));
        assert(sub.last() == p[i as int] && p[i as int] == pat@[i as int]@);
        assert(q[i as int] == path@[i as int]@);
        if pat[i].len() > 0 && pat[i][0] == COLON {
            let name = header_name_for(&pat[i]);
            let value = to_vec(path[i].as_slice());
            let ghost before = pairs_view(out@);
            out.push((name, value));
            assert(pairs_view(out@) =~= before.push((name@, value@)));
        }
        i = i + 1;
    }
    assert(p.subrange(0, pat@.len() as int) =~= p);
    out
}

/// What a route leads to.
pub enum Handler {
    /// An entry point of a guest module.
    Function { module: String, entry_point: String },
    /// A registered blob, served as it is.
    StaticBlob { tech_id: String },
}

/// A copy of `h`.
pub fn copy_handler(h: &Handler) -> (r: Handler)
    ensures
        r == *h,
{
    match h {
        Handler::Function { module, entry_point } => Handler::Function {
            module: module.clone(),
            entry_point: entry_point.clone(),
        },
        Handler::StaticBlob { tech_id } => Handler::StaticBlob { tech_id: tech_id.clone() },
    }
}

/// A registration as plain values.
pub struct RouteView {
    pub method: Seq<u8>,
    pub segments: Seq<Seq<u8>>,
    pub handler: Handler,
}

/// A registration: a method, a path pattern cut into segments, a handler.
pub struct Route {
    pub method: Vec<u8>,
    pub segments: Vec<Vec<u8>>,
    pub handler: Handler,
}

impl View for Route {
    type V = RouteView;

    open spec fn view(&self) -> RouteView {
        RouteView { method: self.method@, segments: segs_view(self.segments@), handler: self.handler }
    }
}

/// The route at `j` has method `m` and pattern `s`.
pub open spec fn has_key(t: Seq<RouteView>, j: int, m: Seq<u8>, s: Seq<Seq<u8>>) -> bool {
    t[j].method == m && t[j].segments == s
}

/// No (method, pattern) pair is registered twice.
pub open spec fn routes_unique(t: Seq<RouteView>) -> bool {
    forall|i: int, j: int|
        #![trigger t[i], t[j]]
        0 <= i < j < t.len() ==> !(t[i].method == t[j].method && t[i].segments == t[j].segments)
}

/// The index of the last route with method `m` and pattern `s`; -1 where there is none.
pub open spec fn find_key(t: Seq<RouteView>, m: Seq<u8>, s: Seq<Seq<u8>>) -> int
    decreases t.len(),
{
    if t.len() == 0 {
        -1
    } else if has_key(t, t.len() - 1, m, s) {
        t.len() - 1
    } else {
        find_key(t.drop_last(), m, s)
    }
}

/// The table after registering `h` for (`m`, `s`): it replaces the route
/// with that key in place, or is added last.
pub open spec fn plugged(t: Seq<RouteView>, m: Seq<u8>, s: Seq<Seq<u8>>, h: Handler) -> Seq<RouteView> {
    let i = find_key(t, m, s);
    let r = RouteView { method: m, segments: s, handler: h };
    if i >= 0 {
        t.update(i, r)
    } else {
        t.push(r)
    }
}

/// The table after removing the route for (`m`, `s`), if there is one.
pub open spec fn unplugged(t: Seq<RouteView>, m: Seq<u8>, s: Seq<Seq<u8>>) -> Seq<RouteView> {
    let i = find_key(t, m, s);
    if i >= 0 {
        t.remove(i)
    } else {
        t
    }
}

/// The route at `j` answers a request for method `m` and path segments `q`.
pub open spec fn answers(t: Seq<RouteView>, j: int, m: Seq<u8>, q: Seq<Seq<u8>>) -> bool {
    0 <= j < t.len() && t[j].method == m && pattern_matches(t[j].segments, q)
}

/// The route at `r` is the one a lookup picks: it answers, it is strictly
/// more specific than every earlier route that answers, and no later one that
/// answers is strictly more specific than it.
pub open spec fn is_best(t: Seq<RouteView>, r: int, m: Seq<u8>, q: Seq<Seq<u8>>) -> bool {
    &&& answers(t, r, m, q)
    &&& forall|j: int| 0 <= j < r && #[trigger] answers(t, j, m, q) ==> beats(t[r].segments, t[j].segments)
    &&& forall|j: int| r < j < t.len() && #[trigger] answers(t, j, m, q) ==> !beats(t[j].segments, t[r].segments)
}

proof fn lemma_find_key(t: Seq<RouteView>, m: Seq<u8>, s: Seq<Seq<u8>>)
    requires
        routes_unique(t),
    ensures
        find_key(t, m, s) == -1 <==> forall|j: int| 0 <= j < t.len() ==> !has_key(t, j, m, s),
        find_key(t, m, s) >= 0 ==> find_key(t, m, s) < t.len() && has_key(t, find_key(t, m, s), m, s),
        forall|j: int| 0 <= j < t.len() && has_key(t, j, m, s) ==> j == find_key(t, m, s),
    decreases t.len(),
{
    if t.len() > 0 {
        let init = t.drop_last();
        assert(routes_unique(init)) by {
            assert forall|i: int, j: int| #![trigger init[i], init[j]] 0 <= i < j < init.len() implies !(init[i].method == init[j].method && init[i].segments == init[j].segments) by {
                assert(init[i] == t[i] && init[j] == t[j]);
            }
        }
        lemma_find_key(init, m, s);
        assert forall|j: int| 0 <= j < init.len() implies has_key(init, j, m, s) == has_key(t, j, m, s) by {
            assert(init[j] == t[j]);
        }
        if has_key(t, t.len() - 1, m, s) {
            assert forall|j: int| 0 <= j < t.len() && has_key(t, j, m, s) implies j == t.len() - 1 by {
                if j < t.len() - 1 {
                    assert(t[j].method == t[t.len() - 1].method && t[j].segments == t[t.len() - 1].segments);
                }
            }
        }
    }
}

/// The routes, in registration order, each (method, pattern) at most once.
pub struct RouteTable {
    routes: Vec<Route>,
}

/// The outcome of a lookup: the route picked, its handler, and the synthetic
/// headers that its parameters bind.
pub struct RouteMatch {
    pub index: usize,
    pub handler: Handler,
    pub params: Vec<(Vec<u8>, Vec<u8>)>,
}

impl View for RouteTable {
    type V = Seq<RouteView>;

    closed spec fn view(&self) -> Seq<RouteView> {
        self.routes@.map_values(|r: Route| r@)
    }
}

impl RouteTable {
    pub closed spec fn wf(&self) -> bool {
        routes_unique(self@)
    }

    pub fn new() -> (r: RouteTable)
        ensures
            r.wf(),
            r@ == Seq::<RouteView>::empty(),
    {
        let r = RouteTable { routes: Vec::new() };
        assert(r@ =~= Seq::<RouteView>::empty());
        r
    }

    /// The index of the route for (`method`, `segs`), if there is one.
    fn position(&self, method: &[u8], segs: &Vec<Vec<u8>>) -> (r: Option<usize>)
        requires
            self.wf(),
        ensures
            r is None ==> find_key(self@, method@, segs_view(segs@)) == -1,
            r matches Some(i) ==> i == find_key(self@, method@, segs_view(segs@)),
    {
        let ghost t = self@;
        let ghost s = segs_view(segs@);
        let mut i: usize = 0;
        while i < self.routes.len()
            invariant
                routes_unique(t),
                s == segs_view(segs@),
                t == self@,
                t.len() == self.routes@.len(),
                i <= t.len(),
                forall|j: int| 0 <= j < i ==> !has_key(t, j, method@, s),
            decreases t.len() - i,
        {
            let r = &self.routes[i];
            assert(t[i as int] == r@);
            if bytes_eq(r.method.as_slice(), method) && r.segments.len() == segs.len() {
                let mut k: usize = 0;
                let mut same = true;
                while k < segs.len()
                    invariant
                        r.segments@.len() == segs@.len(),
                        k <= segs@.len(),
                        same ==> forall|x: int| 0 <= x < k ==> r.segments@[x]@ == segs@[x]@,
                        !same ==> exists|x: int| 0 <= x < segs@.len() && r.segments@[x]@ != segs@[x]@,
                    decreases segs@.len() - k,
                {
                    if !bytes_eq(r.segments[k].as_slice(), segs[k].as_slice()) {
                        same = false;
                    }
                    k = k + 1;
                }
                if same {
                    assert forall|x: int| 0 <= x < s.len() implies #[trigger] segs_view(r.segments@)[x] == s[x] by {
                        assert(segs_view(r.segments@)[x] == r.segments@[x]@);
                    }
                    assert(segs_view(r.segments@) =~= s);
                    assert(r.method@ == method@);
                    assert(has_key(t, i as int, method@, s));
                    proof {
                        lemma_find_key(t, method@, s);
                    }
                    return Some(i);
                }
                proof {
                    let x = choose|x: int| 0 <= x < segs@.len() && r.segments@[x]@ != segs@[x]@;
                    assert(segs_view(r.segments@)[x] != s[x]);
                }
            }
            i = i + 1;
        }
        proof {
            lemma_find_key(t, method@, s);
        }
        None
    }

    /// Registers `handler` for `method` and the path pattern `path`,
    /// replacing any handler registered for that pair.
    pub fn plug(&mut self, method: &[u8], path: &[u8], handler: Handler)
        requires
            old(self).wf(),
        ensures
            final(self).wf(),
            final(self)@ == plugged(old(self)@, method@, split_path(path@), handler),
    {
        let segs = split_segments(path);
        let route = Route { method: to_vec(method), segments: segs, handler };
        let ghost t = self@;
        let ghost s = split_path(path@);
        proof {
            lemma_find_key(t, method@, s);
        }
        match self.position(method, &route.segments) {
            Some(i) => {
                self.routes.set(i, route);
                assert(self@ =~= t.update(i as int, route@));
                proof {
                    let t2 = self@;
                    assert forall|a: int, b: int| #![trigger t2[a], t2[b]] 0 <= a < b < t2.len() implies !(t2[a].method == t2[b].method && t2[a].segments == t2[b].segments) by {
                        if a == i {
                            assert(!has_key(t, b, method@, s));
                        } else if b == i {
                            assert(!has_key(t, a, method@, s));
                        } else {
                            assert(t2[a] == t[a] && t2[b] == t[b]);
                        }
                    }
                }
            },
            None => {
                self.routes.push(route);
                assert(self@ =~= t.push(route@));
                proof {
                    let t2 = self@;
                    assert forall|a: int, b: int| #![trigger t2[a], t2[b]] 0 <= a < b < t2.len() implies !(t2[a].method == t2[b].method && t2[a].segments == t2[b].segments) by {
                        if b == t.len() {
                            assert(!has_key(t, a, method@, s));
                        } else {
                            assert(t2[a] == t[a] && t2[b] == t[b]);
                        }
                    }
                }
            },
        }
    }

    /// Removes the route for `method` and the path pattern `path`; removing
    /// one that is not there does nothing.
    pub fn unplug(&mut self, method: &[u8], path: &[u8])
        requires
            old(self).wf(),
        ensures
            final(self).wf(),
            final(self)@ == unplugged(old(self)@, method@, split_path(path@)),
    {
        let segs = split_segments(path);
        let ghost t = self@;
        proof {
            lemma_find_key(t, method@, segs_view(segs@));
        }
        match self.position(method, &segs) {
            Some(i) => {
                let _ = self.routes.remove(i);
                assert(self@ =~= t.remove(i as int));
                proof {
                    let t2 = self@;
                    assert forall|a: int, b: int| #![trigger t2[a], t2[b]] 0 <= a < b < t2.len() implies !(t2[a].method == t2[b].method && t2[a].segments == t2[b].segments) by {
                        let a0 = if a < i { a } else { a + 1 };
                        let b0 = if b < i { b } else { b + 1 };
                        assert(t2[a] == t[a0] && t2[b] == t[b0]);
                    }
                }
            },
            None => {},
        }
    }

    /// Finds the route for a request: exact method, and among the patterns
    /// that accept the path, the most specific, the earliest registered on a
    /// tie. `None` means not found.
    pub fn lookup(&self, method: &[u8], path: &[u8]) -> (r: Option<RouteMatch>)
        requires
            self.wf(),
        ensures
            r is None <==> forall|j: int| !answers(self@, j, method@, split_path(path@)),
            r matches Some(rm) ==> {
                &&& is_best(self@, rm.index as int, method@, split_path(path@))
                &&& rm.handler == self@[rm.index as int].handler
                &&& pairs_view(rm.params@) == param_bindings(self@[rm.index as int].segments, split_path(path@))
            },
    {
        let q = split_segments(path);
        let ghost t = self@;
        let ghost qs = split_path(path@);
        let mut best: Option<usize> = None;
        let mut i: usize = 0;
        while i < self.routes.len()
            invariant
                t == self@,
                qs == segs_view(q@),
                t.len() == self.routes@.len(),
                i <= t.len(),
                best is None ==> forall|j: int| 0 <= j < i ==> !answers(t, j, method@, qs),
                best matches Some(b) ==> {
                    &&& b < i
                    &&& answers(t, b as int, method@, qs)
                    &&& forall|j: int| 0 <= j < b && #[trigger] answers(t, j, method@, qs) ==> beats(t[b as int].segments, t[j].segments)
                    &&& forall|j: int| b < j < i && #[trigger] answers(t, j, method@, qs) ==> !beats(t[j].segments, t[b as int].segments)
                },
            decreases t.len() - i,
        {
            let r = &self.routes[i];
            assert(t[i as int] == r@);
            if bytes_eq(r.method.as_slice(), method) && matches(&r.segments, &q) {
                match best {
                    None => {
                        best = Some(i);
                    },
                    Some(b) => {
                        assert(t[b as int] == self.routes@[b as int]@);
                        if more_specific(&r.segments, &self.routes[b].segments) {
                            proof {
                                let c = t[i as int].segments;
                                let bs = t[b as int].segments;
                                assert forall|j: int| 0 <= j < i && #[trigger] answers(t, j, method@, qs) implies beats(c, t[j].segments) by {
                                    if j < b {
                                        lemma_beats_asym(bs, t[j].segments, 0);
                                        lemma_beats_order(c, bs, t[j].segments, 0);
                                    } else if j > b {
                                        lemma_beats_order(c, bs, t[j].segments, 0);
                                    }
                                }
                            }
                            best = Some(i);
                        }
                    },
                }
            }
            i = i + 1;
        }
        match best {
            None => None,
            Some(b) => {
                let r = &self.routes[b];
                assert(t[b as int] == r@);
                let params = bind_params(&r.segments, &q);
                Some(RouteMatch { index: b, handler: copy_handler(&r.handler), params })
            },
        }
    }
}

/// No segment of `s` is a parameter.
pub open spec fn all_literal(s: Seq<Seq<u8>>) -> bool {
    forall|k: int| 0 <= k < s.len() ==> !is_param(#[trigger] s[k])
}

proof fn lemma_literal_unbeaten(x: Seq<Seq<u8>>, q: Seq<Seq<u8>>, k: int)
    requires
        all_literal(q),
    ensures
        !beats_from(x, q, k),
    decreases x.len() - k,
{
    if 0 <= k < x.len() && k < q.len() {
        assert(!is_param(q[k]));
        lemma_literal_unbeaten(x, q, k + 1);
    }
}

proof fn lemma_literal_beats(q: Seq<Seq<u8>>, x: Seq<Seq<u8>>, k: int, p: int)
    requires
        all_literal(q),
        x.len() == q.len(),
        0 <= k <= p < x.len(),
        is_param(x[p]),
    ensures
        beats_from(q, x, k),
    decreases p - k,
{
    assert(!is_param(q[k]));
    if !is_param(x[k]) {
        lemma_literal_beats(q, x, k + 1, p);
    }
}

proof fn lemma_plugged(t: Seq<RouteView>, m: Seq<u8>, s: Seq<Seq<u8>>, h: Handler)
    requires
        routes_unique(t),
    ensures
        routes_unique(plugged(t, m, s, h)),
        0 <= find_key(plugged(t, m, s, h), m, s),
        plugged(t, m, s, h)[find_key(plugged(t, m, s, h), m, s)] == (RouteView { method: m, segments: s, handler: h }),
{
    lemma_find_key(t, m, s);
    let i = find_key(t, m, s);
    let t2 = plugged(t, m, s, h);
    let n = if i >= 0 { i } else { t.len() as int };
    assert forall|a: int, b: int| #![trigger t2[a], t2[b]] 0 <= a < b < t2.len() implies !(t2[a].method
        == t2[b].method && t2[a].segments == t2[b].segments) by {
        if a == n {
            assert(!has_key(t, b, m, s));
        } else if b == n {
            assert(!has_key(t, a, m, s));
        } else {
            assert(t2[a] == t[a] && t2[b] == t[b]);
        }
    }
    lemma_find_key(t2, m, s);
    assert(has_key(t2, n, m, s));
}

/// Route replacement: after `a` and then `b` are plugged for one method and
/// one literal path, some route answers a request for that path, and the
/// route that a lookup picks holds `b`.
pub proof fn lemma_route_replacement(t: Seq<RouteView>, m: Seq<u8>, path: Seq<u8>, a: Handler, b: Handler)
    requires
        routes_unique(t),
        all_literal(split_path(path)),
    ensures
        ({
            let q = split_path(path);
            let t2 = plugged(plugged(t, m, q, a), m, q, b);
            &&& answers(t2, find_key(t2, m, q), m, q)
            &&& forall|r: int| is_best(t2, r, m, q) ==> t2[r].handler == b
        }),
{
    let q = split_path(path);
    let t1 = plugged(t, m, q, a);
    lemma_plugged(t, m, q, a);
    let t2 = plugged(t1, m, q, b);
    lemma_plugged(t1, m, q, b);
    let i = find_key(t2, m, q);
    lemma_find_key(t2, m, q);
    assert(pattern_matches(q, q));
    assert forall|r: int| is_best(t2, r, m, q) implies t2[r].handler == b by {
        let x = t2[r].segments;
        if exists|p: int| 0 <= p < x.len() && is_param(#[trigger] x[p]) {
            let p = choose|p: int| 0 <= p < x.len() && is_param(#[trigger] x[p]);
            lemma_literal_beats(q, x, 0, p);
            lemma_literal_unbeaten(x, q, 0);
            if i < r {
                assert(answers(t2, i, m, q));
            } else if r < i {
                assert(answers(t2, i, m, q));
            }
        } else {
            assert forall|k: int| 0 <= k < x.len() implies x[k] == q[k] by {
                assert(seg_matches(x[k], q[k]));
            }
            assert(x =~= q);
            assert(has_key(t2, r, m, q));
        }
    }
}

/// Unplug then lookup: once the route for (`m`, `path`) is removed, a
/// request that no other route of method `m` answered finds no route.
pub proof fn lemma_unplug_then_lookup(t: Seq<RouteView>, m: Seq<u8>, path: Seq<u8>, q: Seq<Seq<u8>>)
    requires
        routes_unique(t),
        forall|j: int| #[trigger] answers(t, j, m, q) ==> t[j].segments == split_path(path),
    ensures
        forall|j: int| !#[trigger] answers(unplugged(t, m, split_path(path)), j, m, q),
{
    let s = split_path(path);
    lemma_find_key(t, m, s);
    let i = find_key(t, m, s);
    let t2 = unplugged(t, m, s);
    assert forall|j: int| !#[trigger] answers(t2, j, m, q) by {
        if answers(t2, j, m, q) {
            let j0 = if i >= 0 && j >= i { j + 1 } else { j };
            assert(t2[j] == t[j0]);
            assert(answers(t, j0, m, q));
            assert(has_key(t, j0, m, s));
        }
    }
}

proof fn lemma_param_header_name_injective(a: Seq<u8>, b: Seq<u8>)
    requires
        is_param(a),
        is_param(b),
        param_header_name(a) == param_header_name(b),
    ensures
        a == b,
{
    let p = param_header_prefix();
    assert(param_header_name(a).subrange(p.len() as int, param_header_name(a).len() as int) =~= a.drop_first());
    assert(param_header_name(b).subrange(p.len() as int, param_header_name(b).len() as int) =~= b.drop_first());
    assert(a =~= seq![a[0]] + a.drop_first());
    assert(b =~= seq![b[0]] + b.drop_first());
}

proof fn lemma_bindings_step(hs: Seq<Pair>, pat: Seq<Seq<u8>>, path: Seq<Seq<u8>>, n: int)
    requires
        0 <= n < pat.len(),
    ensures
        pairs_to_map(hs + param_bindings(pat.subrange(0, n + 1), path)) == if is_param(pat[n]) {
            pairs_to_map(hs + param_bindings(pat.subrange(0, n), path)).insert(param_header_name(pat[n]), path[n])
        } else {
            pairs_to_map(hs + param_bindings(pat.subrange(0, n), path))
        },
{
    let sub = pat.subrange(0, n + 1);
    assert(sub.drop_last() =~= pat.subrange(0, n));
    assert(sub.last() == pat[n]);
    let rest = param_bindings(pat.subrange(0, n), path);
    if is_param(pat[n]) {
        let e = (param_header_name(pat[n]), path[n]);
        assert(hs + rest.push(e) =~= (hs + rest).push(e));
        assert((hs + rest).push(e).drop_last() =~= hs + rest);
    }
}

proof fn lemma_bindings_keep(hs: Seq<Pair>, pat: Seq<Seq<u8>>, path: Seq<Seq<u8>>, k: int, n: int)
    requires
        0 <= k < n <= pat.len(),
        is_param(pat[k]),
        forall|j: int| k < j < pat.len() && is_param(#[trigger] pat[j]) ==> pat[j] != pat[k],
    ensures
        pairs_to_map(hs + param_bindings(pat.subrange(0, n), path)).contains_key(param_header_name(pat[k])),
        pairs_to_map(hs + param_bindings(pat.subrange(0, n), path))[param_header_name(pat[k])] == path[k],
    decreases n,
{
    lemma_bindings_step(hs, pat, path, n - 1);
    if n - 1 > k {
        lemma_bindings_keep(hs, pat, path, k, n - 1);
        if is_param(pat[n - 1]) && param_header_name(pat[n - 1]) == param_header_name(pat[k]) {
            lemma_param_header_name_injective(pat[n - 1], pat[k]);
        }
    }
}

/// Path-parameter binding: the header named after a parameter segment of
/// `pat` (one that no later segment repeats) carries the path's segment at
/// that position, whatever headers come before the bindings.
pub proof fn lemma_param_binding(hs: Seq<Pair>, pat: Seq<Seq<u8>>, path: Seq<Seq<u8>>, k: int)
    requires
        pattern_matches(pat, path),
        0 <= k < pat.len(),
        is_param(pat[k]),
        forall|j: int| k < j < pat.len() && is_param(#[trigger] pat[j]) ==> pat[j] != pat[k],
    ensures
        pairs_to_map(hs + param_bindings(pat, path)).contains_key(param_header_name(pat[k])),
        pairs_to_map(hs + param_bindings(pat, path))[param_header_name(pat[k])] == path[k],
{
    lemma_bindings_keep(hs, pat, path, k, pat.len() as int);
    assert(pat.subrange(0, pat.len() as int) =~= pat);
}

} // verus!
