use vstd::prelude::*;
use vstd::string::{StrSliceExecFns, StringExecFns};
use crate::text::views;

verus! {

/// `s` with each `:` written as `%3A`, so that a drive letter cannot be
/// taken for a parameter marker.
pub open spec fn escaped(s: Seq<char>) -> Seq<char>
    decreases s.len(),
{
    if s.len() == 0 {
        Seq::empty()
    } else {
        escaped(s.drop_last()) + if s.last() == ':' {
            "%3A"@
        } else {
            seq![s.last()]
        }
    }
}

/// The key under which a folder with URI path `p` is routed: every path
/// strictly inside the folder starts with it.
pub open spec fn folder_key(p: Seq<char>) -> Seq<char> {
    escaped(p) + seq!['/']
}

/// The key of the catch-all route: every absolute path starts with it.
pub open spec fn root_key() -> Seq<char> {
    seq!['/']
}

/// No two items of `k` are equal.
pub open spec fn distinct(k: Seq<Seq<char>>) -> bool {
    forall|a: int, b: int| 0 <= a < b < k.len() ==> k[a] != k[b]
}

pub open spec fn is_prefix(p: Seq<char>, s: Seq<char>) -> bool {
    p.len() <= s.len() && s.subrange(0, p.len() as int) == p
}

/// Route `i` of `keys` is the one for `path`: its key is a prefix of the
/// path, no matching key is longer, and no earlier one is as long.
pub open spec fn best_route(keys: Seq<Seq<char>>, path: Seq<char>, i: int) -> bool {
    &&& 0 <= i < keys.len()
    &&& is_prefix(keys[i], path)
    &&& forall|j: int|
        0 <= j < keys.len() && #[trigger] is_prefix(keys[j], path) ==> keys[j].len() < keys[
            i
        ].len() || (keys[j].len() == keys[i].len() && i <= j)
}

/// One route: a key and the policy that governs the paths under it.
pub struct Route<T> {
    pub key: String,
    pub policy: T,
}

/// A routing table from document paths to policies, matched by longest key.
pub struct PolicyRouter<T> {
    pub routes: Vec<Route<T>>,
}

/// `s` with each `:` written as `%3A`.
pub fn url_path_sanitised(s: &str) -> (r: String)
    ensures
        r@ == escaped(s@),
{
    let mut r = String::new();
    let n = s.unicode_len();
    assert(s@.subrange(0, 0) =~= Seq::<char>::empty());
    let mut i: usize = 0;
    while i < n
        invariant
            n == s@.len(),
            i <= n,
            r@ == escaped(s@.subrange(0, i as int)),
        decreases n - i,
    {
        let c = s.get_char(i);
        if c == ':' {
            r.append("%3A");
        } else {
            r.append(s.substring_char(i, i + 1));
        }
        assert(s@.subrange(0, i + 1).drop_last() =~= s@.subrange(0, i as int));
        i = i + 1;
    }
    assert(s@.subrange(0, n as int) =~= s@);
    r
}

/// Whether `p` is a prefix of `s`.
pub fn starts_with(s: &str, p: &str) -> (r: bool)
    ensures
        r == is_prefix(p@, s@),
{
    let n = p.unicode_len();
    if n > s.unicode_len() {
        return false;
    }
    let mut i: usize = 0;
    while i < n
        invariant
            n == p@.len(),
            n <= s@.len(),
            i <= n,
            forall|j: int| 0 <= j < i ==> s@[j] == p@[j],
        decreases n - i,
    {
        if s.get_char(i) != p.get_char(i) {
            assert(s@.subrange(0, n as int)[i as int] != p@[i as int]);
            return false;
        }
        i = i + 1;
    }
    assert(s@.subrange(0, n as int) =~= p@);
    true
}

/// The key for a folder with URI path `uri_path`.
pub fn folder_route_key(uri_path: &str) -> (r: String)
    ensures
        r@ == folder_key(uri_path@),
{
    let mut r = url_path_sanitised(uri_path);
    r.append("/");
    proof {
        reveal_strlit("/");
    }
    r
}

impl<T> PolicyRouter<T> {
    pub open spec fn keys(&self) -> Seq<Seq<char>> {
        self.routes@.map_values(|r: Route<T>| r.key@)
    }

    /// An empty table.
    pub fn new() -> (r: Self)
        ensures
            r.routes@.len() == 0,
    {
        PolicyRouter { routes: Vec::new() }
    }

    /// The table for folders with URI paths `folders` and filesystem roots
    /// with URI paths `roots` (`""` where there is one root): one route per
    /// folder, then one catch-all route per root, in order, each with the
    /// policy at the same index. `None` when two of those routes would have
    /// the same key (a folder listed twice), which a route table refuses.
    pub fn build(folders: &Vec<String>, roots: &Vec<String>, policies: Vec<T>) -> (r: Option<Self>)
        requires
            policies@.len() == folders@.len() + roots@.len(),
        ensures
            match r {
                Some(t) => {
                    &&& distinct(router_keys(views(folders@), views(roots@)))
                    &&& t.keys() == router_keys(views(folders@), views(roots@))
                    &&& t.routes@.len() == policies@.len()
                    &&& forall|i: int|
                        0 <= i < policies@.len() ==> #[trigger] t.routes@[i].policy == policies@[i]
                },
                None => !distinct(router_keys(views(folders@), views(roots@))),
            },
    {
        let t = Self::build_table(folders, roots, policies);
        if t.keys_distinct() {
            Some(t)
        } else {
            None
        }
    }

    /// Whether no two routes have the same key.
    pub fn keys_distinct(&self) -> (r: bool)
        ensures
            r == distinct(self.keys()),
    {
        let n = self.routes.len();
        let mut i: usize = 0;
        while i < n
            invariant
                n == self.routes@.len(),
                i <= n,
                forall|a: int, b: int| 0 <= a < i && a < b < n ==> self.keys()[a] != self.keys()[b],
            decreases n - i,
        {
            let mut j: usize = i + 1;
            while j < n
                invariant
                    n == self.routes@.len(),
                    i < n,
                    i + 1 <= j <= n,
                    forall|a: int, b: int| 0 <= a < i && a < b < n ==> self.keys()[a] != self.keys()[b],
                    forall|b: int| i < b < j ==> self.keys()[i as int] != self.keys()[b],
                decreases n - j,
            {
                if self.routes[i].key.eq(&self.routes[j].key) {
                    assert(self.keys()[i as int] == self.keys()[j as int]);
                    return false;
                }
                j = j + 1;
            }
            i = i + 1;
        }
        true
    }

    fn build_table(folders: &Vec<String>, roots: &Vec<String>, policies: Vec<T>) -> (r: Self)
        requires
            policies@.len() == folders@.len() + roots@.len(),
        ensures
            r.keys() == router_keys(views(folders@), views(roots@)),
            r.routes@.len() == policies@.len(),
            forall|i: int| 0 <= i < policies@.len() ==> #[trigger] r.routes@[i].policy == policies@[i],
    {
        let ghost ps = policies@;
        let ghost nf = folders@.len() as int;
        let mut policies = policies;
        let mut out: Vec<Route<T>> = Vec::new();
        // reversed, so that popping hands the policies out in order
        let mut taken: Vec<T> = Vec::new();
        while policies.len() > 0
            invariant
                taken@.len() + policies@.len() == ps.len(),
                forall|j: int| 0 <= j < taken@.len() ==> #[trigger] taken@[j] == ps[ps.len() - 1 - j],
                policies@ == ps.subrange(0, policies@.len() as int),
            decreases policies@.len(),
        {
            let p = policies.pop().unwrap();
            taken.push(p);
        }
        let mut i: usize = 0;
        while i < folders.len()
            invariant
                ps.len() == nf + roots@.len(),
                nf == folders@.len(),
                i <= nf,
                out@.len() == i,
                taken@.len() == ps.len() - i,
                forall|j: int| 0 <= j < taken@.len() ==> #[trigger] taken@[j] == ps[ps.len() - 1 - j],
                forall|j: int|
                    0 <= j < i ==> (#[trigger] out@[j]).key@ == folder_key(folders@[j]@)
                        && out@[j].policy == ps[j],
            decreases nf - i,
        {
            let key = folder_route_key(folders[i].as_str());
            let policy = taken.pop().unwrap();
            out.push(Route { key, policy });
            i = i + 1;
        }
        let mut k: usize = 0;
        while k < roots.len()
            invariant
                ps.len() == nf + roots@.len(),
                nf == folders@.len(),
                k <= roots@.len(),
                out@.len() == nf + k,
                taken@.len() == ps.len() - nf - k,
                forall|j: int| 0 <= j < taken@.len() ==> #[trigger] taken@[j] == ps[ps.len() - 1 - j],
                forall|j: int|
                    0 <= j < nf ==> (#[trigger] out@[j]).key@ == folder_key(folders@[j]@)
                        && out@[j].policy == ps[j],
                forall|j: int|
                    0 <= j < k ==> (#[trigger] out@[nf + j]).key@ == folder_key(roots@[j]@)
                        && out@[nf + j].policy == ps[nf + j],
            decreases roots@.len() - k,
        {
            let key = folder_route_key(roots[k].as_str());
            let policy = taken.pop().unwrap();
            let ghost before = out@;
            out.push(Route { key, policy });
            assert(out@[nf + k].key@ == folder_key(roots@[k as int]@));
            assert forall|j: int| 0 <= j < nf implies (#[trigger] out@[j]).key@ == folder_key(
                folders@[j]@,
            ) && out@[j].policy == ps[j] by {
                assert(out@[j] == before[j]);
            }
            assert forall|j: int| 0 <= j < k + 1 implies (#[trigger] out@[nf + j]).key@ == folder_key(
                roots@[j]@,
            ) && out@[nf + j].policy == ps[nf + j] by {
                if j < k {
                    assert(out@[nf + j] == before[nf + j]);
                }
            }
            k = k + 1;
        }
        let r = PolicyRouter { routes: out };
        assert forall|j: int| 0 <= j < ps.len() implies #[trigger] r.routes@[j].policy == ps[j] by {
            if j >= nf {
                assert(out@[nf + (j - nf)].policy == ps[nf + (j - nf)]);
            }
        }
        assert forall|j: int| 0 <= j < ps.len() implies #[trigger] r.keys()[j] == router_keys(
            views(folders@),
            views(roots@),
        )[j] by {
            if j >= nf {
                assert(out@[nf + (j - nf)].key@ == folder_key(roots@[j - nf]@));
            }
        }
        assert(r.keys() =~= router_keys(views(folders@), views(roots@)));
        r
    }

    /// Index of the route for `path`: the one whose key is the longest
    /// prefix of the escaped path, the earliest among equals; `None` when no
    /// key is a prefix of it.
    pub fn lookup(&self, path: &str) -> (r: Option<usize>)
        ensures
            match r {
                Some(i) => best_route(self.keys(), escaped(path@), i as int),
                None => forall|j: int|
                    0 <= j < self.keys().len() ==> !#[trigger] is_prefix(
                        self.keys()[j],
                        escaped(path@),
                    ),
            },
    {
        let p = url_path_sanitised(path);
        let mut best: Option<usize> = None;
        let mut best_len: usize = 0;
        let mut i: usize = 0;
        while i < self.routes.len()
            invariant
                p@ == escaped(path@),
                i <= self.routes@.len(),
                match best {
                    Some(b) => b < i && best_len == self.keys()[b as int].len() && is_prefix(
                        self.keys()[b as int],
                        p@,
                    ) && forall|j: int|
                        0 <= j < i && #[trigger] is_prefix(self.keys()[j], p@) ==> self.keys()[
                            j
                        ].len() < best_len || (self.keys()[j].len() == best_len && b <= j),
                    None => forall|j: int|
                        0 <= j < i ==> !#[trigger] is_prefix(self.keys()[j], p@),
                },
            decreases self.routes@.len() - i,
        {
            let key = &self.routes[i].key;
            assert(key@ == self.keys()[i as int]);
            if starts_with(p.as_str(), key.as_str()) {
                let n = key.as_str().unicode_len();
                match best {
                    Some(_) => {
                        if n > best_len {
                            best = Some(i);
                            best_len = n;
                        }
                    },
                    None => {
                        best = Some(i);
                        best_len = n;
                    },
                }
            }
            i = i + 1;
        }
        best
    }

    /// The policy for `path`, as `lookup` picks it.
    pub fn at(&self, path: &str) -> (r: Option<&T>)
        ensures
            match r {
                Some(p) => exists|i: int|
                    best_route(self.keys(), escaped(path@), i) && *p == #[trigger] self.routes@[i].policy,
                None => forall|j: int|
                    0 <= j < self.keys().len() ==> !#[trigger] is_prefix(
                        self.keys()[j],
                        escaped(path@),
                    ),
            },
    {
        match self.lookup(path) {
            Some(i) => Some(&self.routes[i].policy),
            None => None,
        }
    }
}


/// The keys of the table built for folders and filesystem roots with the
/// given URI paths.
pub open spec fn router_keys(folders: Seq<Seq<char>>, roots: Seq<Seq<char>>) -> Seq<Seq<char>> {
    folders.map_values(|p: Seq<char>| folder_key(p)) + roots.map_values(|p: Seq<char>| folder_key(p))
}

/// The roots of a filesystem with a single root, `/`.
pub open spec fn single_root() -> Seq<Seq<char>> {
    seq![Seq::<char>::empty()]
}

proof fn lemma_root_key()
    ensures
        folder_key(Seq::<char>::empty()) == root_key(),
{
    assert(escaped(Seq::<char>::empty()) =~= Seq::<char>::empty());
    assert(folder_key(Seq::<char>::empty()) =~= root_key());
}

proof fn lemma_escaped_first(s: Seq<char>)
    requires
        s.len() > 0,
        s[0] != ':',
    ensures
        escaped(s).len() > 0,
        escaped(s)[0] == s[0],
    decreases s.len(),
{
    let tail = if s.last() == ':' {
        "%3A"@
    } else {
        seq![s.last()]
    };
    assert(escaped(s) == escaped(s.drop_last()) + tail);
    if s.len() > 1 {
        lemma_escaped_first(s.drop_last());
        assert(s.drop_last()[0] == s[0]);
        assert((escaped(s.drop_last()) + tail)[0] == escaped(s.drop_last())[0]);
    } else {
        assert(s.drop_last() =~= Seq::<char>::empty());
        assert(escaped(s.drop_last()) =~= Seq::<char>::empty());
        assert(s.last() == s[0]);
        assert(escaped(s) =~= seq![s[0]]);
    }
}

/// On a filesystem with a single root, an absolute path that lies in no
/// workspace folder is routed to the catch-all route.
pub proof fn lemma_outside_goes_to_root(folders: Seq<Seq<char>>, path: Seq<char>)
    requires
        path.len() > 0,
        path[0] == '/',
        forall|j: int| 0 <= j < folders.len() ==> !is_prefix(#[trigger] folder_key(folders[j]), escaped(path)),
    ensures
        best_route(router_keys(folders, single_root()), escaped(path), folders.len() as int),
{
    lemma_escaped_first(path);
    let keys = router_keys(folders, single_root());
    lemma_root_key();
    assert(keys[folders.len() as int] == root_key());
    assert(escaped(path).subrange(0, 1) =~= root_key());
    assert forall|j: int|
        0 <= j < keys.len() && #[trigger] is_prefix(keys[j], escaped(path)) implies keys[j].len()
        < keys[folders.len() as int].len() || (keys[j].len() == keys[folders.len() as int].len()
        && folders.len() <= j) by {
        if j < folders.len() {
            assert(keys[j] == folder_key(folders[j]));
        }
    }
}

/// On a filesystem with a single root, a path inside workspace folder `i`
/// is routed to a folder's route, never to the catch-all, and to one at
/// least as deep as folder `i`.
pub proof fn lemma_inside_folder_wins(folders: Seq<Seq<char>>, path: Seq<char>, i: int, b: int)
    requires
        0 <= i < folders.len(),
        is_prefix(folder_key(folders[i]), escaped(path)),
        best_route(router_keys(folders, single_root()), escaped(path), b),
    ensures
        b < folders.len(),
        folder_key(folders[b]).len() >= folder_key(folders[i]).len(),
{
    let keys = router_keys(folders, single_root());
    lemma_root_key();
    assert(keys.len() == folders.len() + 1);
    assert(keys[i] == folder_key(folders[i]));
    assert(is_prefix(keys[i], escaped(path)));
    if b == folders.len() {
        assert(keys[b] == root_key());
    }
    assert(keys[b] == folder_key(folders[b]));
}

} // verus!
