//! Paths as text, taken apart at `/` and put together lexically: `.`
//! components vanish and `..` removes the component before it.
use vstd::prelude::*;
use crate::text::{chars_eq, chars_eq1};

verus! {

pub open spec fn is_absolute(p: Seq<char>) -> bool {
    p.len() > 0 && p[0] == '/'
}

pub open spec fn dot() -> Seq<char> {
    seq!['.']
}

pub open spec fn dot_dot() -> Seq<char> {
    seq!['.', '.']
}

/// Adds one component to the components kept so far.
pub open spec fn step_comp(acc: Seq<Seq<char>>, c: Seq<char>, abs: bool) -> Seq<Seq<char>> {
    if c.len() == 0 || c == dot() {
        acc
    } else if c == dot_dot() {
        if acc.len() > 0 && acc.last() != dot_dot() {
            acc.drop_last()
        } else if abs {
            acc
        } else {
            acc.push(c)
        }
    } else {
        acc.push(c)
    }
}

/// The components kept after reading `p` from `i` on, with `cur` the part of
/// a component read so far.
pub open spec fn norm_run(
    p: Seq<char>,
    i: int,
    cur: Seq<char>,
    acc: Seq<Seq<char>>,
    abs: bool,
) -> Seq<Seq<char>>
    decreases p.len() - i,
{
    if i < 0 || i >= p.len() {
        step_comp(acc, cur, abs)
    } else if p[i] == '/' {
        norm_run(p, i + 1, seq![], step_comp(acc, cur, abs), abs)
    } else {
        norm_run(p, i + 1, cur.push(p[i]), acc, abs)
    }
}

/// Components joined by `/`.
pub open spec fn join_comps(cs: Seq<Seq<char>>) -> Seq<char>
    decreases cs.len(),
{
    if cs.len() == 0 {
        seq![]
    } else if cs.len() == 1 {
        cs[0]
    } else {
        join_comps(cs.drop_last()) + seq!['/'] + cs.last()
    }
}

/// The lexically canonical form of a path.
pub open spec fn normalize(p: Seq<char>) -> Seq<char> {
    let abs = is_absolute(p);
    (if abs {
        seq!['/']
    } else {
        seq![]
    }) + join_comps(norm_run(p, 0, seq![], seq![], abs))
}

/// The position of the last `/` among the first `n` characters, or -1.
pub open spec fn last_slash(p: Seq<char>, n: int) -> int
    decreases n,
{
    if n <= 0 {
        -1
    } else if p[n - 1] == '/' {
        n - 1
    } else {
        last_slash(p, n - 1)
    }
}

/// The directory part of a path: all before its last `/` (`/` itself for a
/// file at the root, empty where there is no `/`).
pub open spec fn parent(p: Seq<char>) -> Seq<char> {
    let k = last_slash(p, p.len() as int);
    if k < 0 {
        seq![]
    } else if k == 0 {
        seq!['/']
    } else {
        p.subrange(0, k)
    }
}

/// `rel` read from the directory `base`.
pub open spec fn join(base: Seq<char>, rel: Seq<char>) -> Seq<char> {
    if is_absolute(rel) || base.len() == 0 {
        rel
    } else {
        base + seq!['/'] + rel
    }
}

/// The file that `rel`, written in the file `file`, names.
pub open spec fn include_target(file: Seq<char>, rel: Seq<char>) -> Seq<char> {
    normalize(join(parent(file), rel))
}

fn step_comp_exec(acc: &mut Vec<Vec<char>>, c: Vec<char>, abs: bool)
    ensures
        final(acc)@.map_values(|v: Vec<char>| v@) == step_comp(
            old(acc)@.map_values(|v: Vec<char>| v@),
            c@,
            abs,
        ),
{
    let ghost a = old(acc)@.map_values(|v: Vec<char>| v@);
    if c.len() == 0 || chars_eq1(&c, '.') {
    } else if chars_eq(&c, &vec!['.', '.']) {
        if acc.len() > 0 && !chars_eq(&acc[acc.len() - 1], &vec!['.', '.']) {
            acc.pop();
            assert(acc@.map_values(|v: Vec<char>| v@) =~= a.drop_last());
        } else if abs {
        } else {
            acc.push(c);
            assert(acc@.map_values(|v: Vec<char>| v@) =~= a.push(dot_dot()));
        }
    } else {
        let ghost cv = c@;
        acc.push(c);
        assert(acc@.map_values(|v: Vec<char>| v@) =~= a.push(cv));
    }
}

/// The lexically canonical form of a path.
pub fn normalize_path(p: &Vec<char>) -> (r: Vec<char>)
    ensures
        r@ == normalize(p@),
{
    let abs = p.len() > 0 && p[0] == '/';
    let mut acc: Vec<Vec<char>> = Vec::new();
    let mut cur: Vec<char> = Vec::new();
    let mut i: usize = 0;
    assert(acc@.map_values(|v: Vec<char>| v@) =~= Seq::<Seq<char>>::empty());
    assert(cur@ =~= Seq::<char>::empty());
    while i < p.len()
        invariant
            i <= p.len(),
            abs == is_absolute(p@),
            norm_run(p@, i as int, cur@, acc@.map_values(|v: Vec<char>| v@), abs) == norm_run(
                p@,
                0,
                seq![],
                seq![],
                abs,
            ),
        decreases p.len() - i,
    {
        if p[i] == '/' {
            step_comp_exec(&mut acc, cur, abs);
            cur = Vec::new();
            assert(cur@ =~= Seq::<char>::empty());
        } else {
            cur.push(p[i]);
        }
        i += 1;
    }
    step_comp_exec(&mut acc, cur, abs);
    let ghost cs = acc@.map_values(|v: Vec<char>| v@);
    let mut r: Vec<char> = Vec::new();
    if abs {
        r.push('/');
    }
    let ghost lead = r@;
    let mut q: usize = 0;
    while q < acc.len()
        invariant
            q <= acc.len(),
            cs == acc@.map_values(|v: Vec<char>| v@),
            r@ == lead + join_comps(cs.subrange(0, q as int)),
        decreases acc.len() - q,
    {
        assert(cs.subrange(0, q + 1).drop_last() =~= cs.subrange(0, q as int));
        if q > 0 {
            r.push('/');
        }
        let part = &acc[q];
        let mut k: usize = 0;
        let ghost base = r@;
        while k < part.len()
            invariant
                k <= part.len(),
                r@ == base + part@.subrange(0, k as int),
            decreases part.len() - k,
        {
            r.push(part[k]);
            k += 1;
            assert(r@ =~= base + part@.subrange(0, k as int));
        }
        q += 1;
        assert(r@ =~= lead + join_comps(cs.subrange(0, q as int)));
    }
    assert(cs.subrange(0, acc.len() as int) =~= cs);
    r
}

/// The directory part of a path.
pub fn parent_path(p: &Vec<char>) -> (r: Vec<char>)
    ensures
        r@ == parent(p@),
{
    let mut n: usize = p.len();
    while n > 0 && p[n - 1] != '/'
        invariant
            n <= p.len(),
            last_slash(p@, p.len() as int) == last_slash(p@, n as int),
        decreases n,
    {
        n -= 1;
    }
    if n == 0 {
        Vec::new()
    } else if n == 1 {
        let r = vec!['/'];
        assert(r@ =~= seq!['/']);
        r
    } else {
        let mut r: Vec<char> = Vec::new();
        let mut k: usize = 0;
        while k < n - 1
            invariant
                k <= n - 1,
                n <= p.len(),
                r@ == p@.subrange(0, k as int),
            decreases n - 1 - k,
        {
            r.push(p[k]);
            k += 1;
            assert(r@ =~= p@.subrange(0, k as int));
        }
        r
    }
}

/// `rel` read from the directory `base`.
pub fn join_path(base: &Vec<char>, rel: &Vec<char>) -> (r: Vec<char>)
    ensures
        r@ == join(base@, rel@),
{
    let mut r: Vec<char> = Vec::new();
    let mut k: usize = 0;
    if !(rel.len() > 0 && rel[0] == '/') && base.len() > 0 {
        while k < base.len()
            invariant
                k <= base.len(),
                r@ == base@.subrange(0, k as int),
            decreases base.len() - k,
        {
            r.push(base[k]);
            k += 1;
            assert(r@ =~= base@.subrange(0, k as int));
        }
        r.push('/');
    }
    let ghost lead = r@;
    k = 0;
    while k < rel.len()
        invariant
            k <= rel.len(),
            r@ == lead + rel@.subrange(0, k as int),
        decreases rel.len() - k,
    {
        r.push(rel[k]);
        k += 1;
        assert(r@ =~= lead + rel@.subrange(0, k as int));
    }
    assert(base@.subrange(0, base@.len() as int) =~= base@);
    assert(r@ =~= join(base@, rel@));
    r
}

/// Reading goes by the characters that are left alone.
proof fn lemma_same_rest(
    p: Seq<char>,
    i: int,
    q: Seq<char>,
    j: int,
    cur: Seq<char>,
    acc: Seq<Seq<char>>,
    abs: bool,
)
    requires
        0 <= i <= p.len(),
        0 <= j <= q.len(),
        p.subrange(i, p.len() as int) == q.subrange(j, q.len() as int),
    ensures
        norm_run(p, i, cur, acc, abs) == norm_run(q, j, cur, acc, abs),
    decreases p.len() - i,
{
    assert(p.subrange(i, p.len() as int).len() == q.subrange(j, q.len() as int).len());
    assert(p.subrange(i, p.len() as int).len() == p.len() - i);
    assert(q.subrange(j, q.len() as int).len() == q.len() - j);
    if i < p.len() {
        assert(p[i] == p.subrange(i, p.len() as int)[0]);
        assert(q[j] == q.subrange(j, q.len() as int)[0]);
        assert(p.subrange(i + 1, p.len() as int) =~= p.subrange(i, p.len() as int).subrange(
            1,
            p.len() - i,
        ));
        assert(q.subrange(j + 1, q.len() as int) =~= q.subrange(j, q.len() as int).subrange(
            1,
            q.len() - j,
        ));
        if p[i] == '/' {
            lemma_same_rest(p, i + 1, q, j + 1, seq![], step_comp(acc, cur, abs), abs);
        } else {
            lemma_same_rest(p, i + 1, q, j + 1, cur.push(p[i]), acc, abs);
        }
    } else {
        assert(q.subrange(j, q.len() as int).len() == 0);
    }
}

/// Two paths that share a prefix ending in `/` read alike up to its end.
proof fn lemma_common_prefix(
    pre: Seq<char>,
    s1: Seq<char>,
    s2: Seq<char>,
    i: int,
    cur: Seq<char>,
    acc: Seq<Seq<char>>,
    abs: bool,
)
    requires
        0 <= i <= pre.len(),
        pre.len() == 0 || pre.last() == '/',
        i == pre.len() ==> cur == Seq::<char>::empty(),
        forall|a: Seq<Seq<char>>|
            norm_run(pre + s1, pre.len() as int, seq![], a, abs) == norm_run(
                pre + s2,
                pre.len() as int,
                seq![],
                a,
                abs,
            ),
    ensures
        norm_run(pre + s1, i, cur, acc, abs) == norm_run(pre + s2, i, cur, acc, abs),
    decreases pre.len() - i,
{
    if i < pre.len() {
        assert((pre + s1)[i] == pre[i]);
        assert((pre + s2)[i] == pre[i]);
        if pre[i] == '/' {
            lemma_common_prefix(pre, s1, s2, i + 1, seq![], step_comp(acc, cur, abs), abs);
        } else {
            lemma_common_prefix(pre, s1, s2, i + 1, cur.push(pre[i]), acc, abs);
        }
    }
}

/// The text before `rel` in `join(base, rel)`.
pub open spec fn join_lead(base: Seq<char>) -> Seq<char> {
    if base.len() == 0 {
        seq![]
    } else {
        base + seq!['/']
    }
}

proof fn lemma_join_lead(base: Seq<char>, rel: Seq<char>)
    requires
        !is_absolute(rel),
    ensures
        join(base, rel) == join_lead(base) + rel,
        join_lead(base).len() == 0 || join_lead(base).last() == '/',
{
    assert(join(base, rel) =~= join_lead(base) + rel);
}

/// A plain component: not empty, no `/`, neither `.` nor `..`.
pub open spec fn plain_component(d: Seq<char>) -> bool {
    d.len() > 0 && d != dot() && d != dot_dot() && forall|k: int| 0 <= k < d.len() ==> d[k] != '/'
}

/// Canonical paths collapse `./` and `dir/..` segments: an include written
/// `./rel`, or `dir/../rel` for a plain component `dir`, names the same file
/// as `rel`, from any including file.
pub proof fn lemma_include_target_dot_segments(file: Seq<char>, d: Seq<char>, rel: Seq<char>)
    requires
        !is_absolute(rel),
        plain_component(d),
    ensures
        include_target(file, seq!['.', '/'] + rel) == include_target(file, rel),
        include_target(file, d + seq!['/', '.', '.', '/'] + rel) == include_target(file, rel),
{
    let base = parent(file);
    let pre = join_lead(base);
    let s0 = rel;
    let s1 = seq!['.', '/'] + rel;
    let s2 = d + seq!['/', '.', '.', '/'] + rel;
    lemma_join_lead(base, s0);
    lemma_join_lead(base, s1);
    lemma_join_lead(base, s2);
    let n = pre.len() as int;
    // the absolute flag is the same for all three
    if pre.len() > 0 {
        assert((pre + s0)[0] == pre[0]);
        assert((pre + s1)[0] == pre[0]);
        assert((pre + s2)[0] == pre[0]);
    } else {
        assert((pre + s1)[0] == '.');
        assert((pre + s2)[0] == d[0]);
        assert(pre + s0 =~= rel);
    }
    let abs = is_absolute(pre + s0);
    assert(is_absolute(pre + s1) == abs);
    assert(is_absolute(pre + s2) == abs);
    assert forall|a: Seq<Seq<char>>|
        norm_run(pre + s1, n, seq![], a, abs) == norm_run(pre + s0, n, seq![], a, abs) by {
        let x = pre + s1;
        assert(x[n] == '.');
        assert(x[n + 1] == '/');
        assert(seq![].push('.') =~= dot());
        assert(step_comp(a, dot(), abs) == a);
        assert(norm_run(x, n, seq![], a, abs) == norm_run(x, n + 1, seq![].push('.'), a, abs));
        assert(norm_run(x, n + 1, seq![].push('.'), a, abs) == norm_run(
            x,
            n + 2,
            seq![],
            step_comp(a, seq![].push('.'), abs),
            abs,
        ));
        assert(x.subrange(n + 2, x.len() as int) =~= (pre + s0).subrange(n, (pre + s0).len() as int));
        lemma_same_rest(x, n + 2, pre + s0, n, seq![], a, abs);
    }
    assert forall|a: Seq<Seq<char>>|
        norm_run(pre + s2, n, seq![], a, abs) == norm_run(pre + s0, n, seq![], a, abs) by {
        let x = pre + s2;
        let m = d.len() as int;
        assert(x.subrange(n, n + m) =~= d);
        // reading `d` builds it up as the current component
        assert forall|k: int| 0 <= k <= m implies norm_run(x, n, seq![], a, abs) == norm_run(
            x,
            n + k,
            d.subrange(0, k),
            a,
            abs,
        ) by {
            lemma_read_plain(x, n, d, k, a, abs);
        }
        assert(d.subrange(0, m) =~= d);
        assert(x[n + m] == '/');
        let a2 = step_comp(a, d, abs);
        assert(a2 == a.push(d));
        assert(x[n + m + 1] == '.');
        assert(x[n + m + 2] == '.');
        assert(x[n + m + 3] == '/');
        assert(seq![].push('.').push('.') =~= dot_dot());
        assert(a2.last() == d);
        assert(a2.drop_last() =~= a);
        assert(step_comp(a2, dot_dot(), abs) == a);
        assert(norm_run(x, n + m, d, a, abs) == norm_run(x, n + m + 1, seq![], a2, abs));
        assert(norm_run(x, n + m + 1, seq![], a2, abs) == norm_run(
            x,
            n + m + 2,
            seq![].push('.'),
            a2,
            abs,
        ));
        assert(norm_run(x, n + m + 2, seq![].push('.'), a2, abs) == norm_run(
            x,
            n + m + 3,
            seq![].push('.').push('.'),
            a2,
            abs,
        ));
        assert(norm_run(x, n + m + 3, seq![].push('.').push('.'), a2, abs) == norm_run(
            x,
            n + m + 4,
            seq![],
            step_comp(a2, seq![].push('.').push('.'), abs),
            abs,
        ));
        assert(x.subrange(n + m + 4, x.len() as int) =~= (pre + s0).subrange(
            n,
            (pre + s0).len() as int,
        ));
        lemma_same_rest(x, n + m + 4, pre + s0, n, seq![], a, abs);
    }
    lemma_common_prefix(pre, s1, s0, 0, seq![], seq![], abs);
    lemma_common_prefix(pre, s2, s0, 0, seq![], seq![], abs);
}

proof fn lemma_read_plain(x: Seq<char>, n: int, d: Seq<char>, k: int, a: Seq<Seq<char>>, abs: bool)
    requires
        0 <= n,
        0 <= k <= d.len(),
        n + d.len() <= x.len(),
        x.subrange(n, n + d.len()) == d,
        forall|q: int| 0 <= q < d.len() ==> d[q] != '/',
    ensures
        norm_run(x, n, seq![], a, abs) == norm_run(x, n + k, d.subrange(0, k), a, abs),
    decreases k,
{
    if k > 0 {
        lemma_read_plain(x, n, d, k - 1, a, abs);
        assert(x[n + k - 1] == d[k - 1]);
        assert(d.subrange(0, k - 1).push(d[k - 1]) =~= d.subrange(0, k));
    } else {
        assert(d.subrange(0, 0) =~= Seq::<char>::empty());
    }
}

/// The rest of `p` below the directory `r`, both taken in canonical form.
pub open spec fn strip_under(p: Seq<char>, r: Seq<char>) -> Option<Seq<char>> {
    let np = normalize(p);
    let nr = normalize(r);
    if nr.len() == 0 {
        if is_absolute(np) {
            None
        } else {
            Some(np)
        }
    } else if np == nr {
        Some(seq![])
    } else if nr.len() < np.len() && np.subrange(0, nr.len() as int) == nr && nr.last() == '/' {
        Some(np.subrange(nr.len() as int, np.len() as int))
    } else if nr.len() < np.len() && np.subrange(0, nr.len() as int) == nr && np[nr.len() as int]
        == '/' {
        Some(np.subrange(nr.len() as int + 1, np.len() as int))
    } else {
        None
    }
}

fn starts_with(a: &Vec<char>, b: &Vec<char>) -> (r: bool)
    requires
        b.len() <= a.len(),
    ensures
        r == (a@.subrange(0, b@.len() as int) == b@),
{
    let mut i: usize = 0;
    while i < b.len()
        invariant
            b.len() <= a.len(),
            i <= b.len(),
            forall|j: int| 0 <= j < i ==> a@[j] == b@[j],
        decreases b.len() - i,
    {
        if a[i] != b[i] {
            assert(a@.subrange(0, b@.len() as int)[i as int] != b@[i as int]);
            return false;
        }
        i += 1;
    }
    assert(a@.subrange(0, b@.len() as int) =~= b@);
    true
}

fn tail_from(a: &Vec<char>, k: usize) -> (r: Vec<char>)
    requires
        k <= a.len(),
    ensures
        r@ == a@.subrange(k as int, a@.len() as int),
{
    let mut r: Vec<char> = Vec::new();
    let mut i: usize = k;
    while i < a.len()
        invariant
            k <= i <= a.len(),
            r@ == a@.subrange(k as int, i as int),
        decreases a.len() - i,
    {
        r.push(a[i]);
        i += 1;
        assert(r@ =~= a@.subrange(k as int, i as int));
    }
    r
}

/// The rest of `p` below the directory `r`.
pub fn strip_under_path(p: &Vec<char>, r: &Vec<char>) -> (res: Option<Vec<char>>)
    ensures
        match strip_under(p@, r@) {
            Some(x) => res.is_some() && res.unwrap()@ == x,
            None => res.is_none(),
        },
{
    let np = normalize_path(p);
    let nr = normalize_path(r);
    if nr.len() == 0 {
        if np.len() > 0 && np[0] == '/' {
            None
        } else {
            Some(np)
        }
    } else if nr.len() == np.len() && starts_with(&np, &nr) {
        assert(np@.subrange(0, nr@.len() as int) =~= np@);
        Some(Vec::new())
    } else if nr.len() < np.len() && starts_with(&np, &nr) && nr[nr.len() - 1] == '/' {
        Some(tail_from(&np, nr.len()))
    } else if nr.len() < np.len() && starts_with(&np, &nr) && np[nr.len()] == '/' {
        Some(tail_from(&np, nr.len() + 1))
    } else {
        proof {
            if np@ == nr@ {
                assert(np@.subrange(0, nr@.len() as int) =~= np@);
            }
        }
        None
    }
}

} // verus!
