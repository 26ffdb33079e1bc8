//! Entry names as relative paths: separator normalization, the components
//! of a path as `std::path` reads them on Unix, and stripping of leading
//! components.
use vstd::prelude::*;

verus! {

/// The name with every back-slash read as a forward slash. For a name
/// without back-slashes this is the name itself.
pub open spec fn normalized(s: Seq<char>) -> Seq<char> {
    s.map_values(|c: char| if c == '\\' { '/' } else { c })
}

/// A piece between slashes that stands as a component of its own: the
/// empty piece (a doubled or trailing slash) and `.` inside a path do not.
pub open spec fn is_kept(p: Seq<char>) -> bool {
    p.len() > 0 && p != seq!['.']
}

/// Reading `s` from the left: the kept pieces that a slash has closed, and
/// the piece still open after the last slash.
pub open spec fn scan(s: Seq<char>) -> (Seq<Seq<char>>, Seq<char>)
    decreases s.len(),
{
    if s.len() == 0 {
        (Seq::empty(), Seq::empty())
    } else {
        let (done, open) = scan(s.drop_last());
        if s.last() == '/' {
            (if is_kept(open) { done.push(open) } else { done }, Seq::empty())
        } else {
            (done, open.push(s.last()))
        }
    }
}

/// The kept pieces of `s`, in order.
pub open spec fn pieces(s: Seq<char>) -> Seq<Seq<char>> {
    let (done, open) = scan(s);
    if is_kept(open) {
        done.push(open)
    } else {
        done
    }
}

/// The component that a path starts with besides its pieces: the root `/`
/// of an absolute path, or `.` for a path that begins with `./` or is `.`.
pub open spec fn lead(s: Seq<char>) -> Seq<Seq<char>> {
    if s.len() > 0 && s[0] == '/' {
        seq![seq!['/']]
    } else if s.len() > 0 && s[0] == '.' && (s.len() == 1 || s[1] == '/') {
        seq![seq!['.']]
    } else {
        Seq::empty()
    }
}

/// The components of a path, each as its text.
pub open spec fn components(s: Seq<char>) -> Seq<Seq<char>> {
    lead(s) + pieces(s)
}

/// The relative path `.` followed by each of `kept`, joined by slashes.
pub open spec fn rooted_at_dot(kept: Seq<Seq<char>>) -> Seq<char>
    decreases kept.len(),
{
    if kept.len() == 0 {
        seq!['.']
    } else {
        rooted_at_dot(kept.drop_last()) + seq!['/'] + kept.last()
    }
}

/// The path left after stripping `n` leading components from `p`, or `None`
/// where `p` has fewer than `n` components and is left out.
pub open spec fn stripped(p: Seq<char>, n: nat) -> Option<Seq<char>> {
    if n == 0 {
        Some(p)
    } else if components(p).len() < n {
        None
    } else {
        Some(rooted_at_dot(components(p).subrange(n as int, components(p).len() as int)))
    }
}

/// Replaces each back-slash of `name` by a forward slash.
pub fn normalize(name: &Vec<char>) -> (r: Vec<char>)
    ensures
        r@ == normalized(name@),
{
    let mut r: Vec<char> = Vec::new();
    let mut i: usize = 0;
    while i < name.len()
        invariant
            i <= name.len(),
            r@ == normalized(name@.subrange(0, i as int)),
        decreases name.len() - i,
    {
        let c = name[i];
        if c == '\\' {
            r.push('/');
        } else {
            r.push(c);
        }
        assert(name@.subrange(0, i + 1) =~= name@.subrange(0, i as int).push(c));
        assert(normalized(name@.subrange(0, i + 1)) =~= normalized(name@.subrange(0, i as int)).push(
            if c == '\\' { '/' } else { c },
        ));
        i = i + 1;
    }
    assert(name@.subrange(0, name.len() as int) =~= name@);
    r
}

/// The texts of a sequence of character vectors.
pub open spec fn texts(v: Seq<Vec<char>>) -> Seq<Seq<char>> {
    v.map_values(|x: Vec<char>| x@)
}

fn is_kept_piece(piece: &Vec<char>) -> (r: bool)
    ensures
        r == is_kept(piece@),
{
    if piece.len() == 1 && piece[0] == '.' {
        assert(piece@ =~= seq!['.']);
        false
    } else {
        piece.len() > 0
    }
}

fn single(c: char) -> (r: Vec<char>)
    ensures
        r@ == seq![c],
{
    let mut r: Vec<char> = Vec::new();
    r.push(c);
    assert(r@ =~= seq![c]);
    r
}

/// Splits `p` into its components, each as its text.
pub fn split_components(p: &Vec<char>) -> (r: Vec<Vec<char>>)
    ensures
        texts(r@) == components(p@),
{
    let mut r: Vec<Vec<char>> = Vec::new();
    if p.len() > 0 && p[0] == '/' {
        r.push(single('/'));
    } else if p.len() > 0 && p[0] == '.' && (p.len() == 1 || p[1] == '/') {
        r.push(single('.'));
    }
    assert(texts(r@) =~= lead(p@));
    let mut open: Vec<char> = Vec::new();
    let mut i: usize = 0;
    assert(p@.subrange(0, 0) =~= Seq::<char>::empty());
    while i < p.len()
        invariant
            i <= p.len(),
            texts(r@) == lead(p@) + scan(p@.subrange(0, i as int)).0,
            open@ == scan(p@.subrange(0, i as int)).1,
        decreases p.len() - i,
    {
        let c = p[i];
        let ghost before = p@.subrange(0, i as int);
        assert(p@.subrange(0, i + 1).drop_last() =~= before);
        if c == '/' {
            if is_kept_piece(&open) {
                let ghost prev = r@;
                r.push(open);
                assert(texts(r@) =~= texts(prev).push(scan(before).1));
                assert(texts(r@) =~= lead(p@) + scan(before).0.push(scan(before).1));
            }
            open = Vec::new();
            assert(open@ =~= Seq::<char>::empty());
        } else {
            open.push(c);
        }
        i = i + 1;
    }
    assert(p@.subrange(0, p.len() as int) =~= p@);
    if is_kept_piece(&open) {
        let ghost prev = r@;
        let ghost sc = scan(p@);
        r.push(open);
        assert(texts(r@) =~= texts(prev).push(sc.1));
        assert(texts(r@) =~= lead(p@) + sc.0.push(sc.1));
    }
    r
}

/// Joins `comps[n..]` onto `.`, each after a slash.
pub fn join_from(comps: &Vec<Vec<char>>, n: usize) -> (r: Vec<char>)
    requires
        n <= comps.len(),
    ensures
        r@ == rooted_at_dot(texts(comps@).subrange(n as int, comps.len() as int)),
{
    let mut r: Vec<char> = single('.');
    let mut i: usize = n;
    assert(texts(comps@).subrange(n as int, n as int) =~= Seq::<Seq<char>>::empty());
    assert(r@ =~= seq!['.']);
    while i < comps.len()
        invariant
            n <= i <= comps.len(),
            r@ == rooted_at_dot(texts(comps@).subrange(n as int, i as int)),
        decreases comps.len() - i,
    {
        let ghost base = r@;
        r.push('/');
        let piece = &comps[i];
        let mut j: usize = 0;
        while j < piece.len()
            invariant
                j <= piece.len(),
                r@ == base + seq!['/'] + piece@.subrange(0, j as int),
            decreases piece.len() - j,
        {
            r.push(piece[j]);
            assert(piece@.subrange(0, j + 1) =~= piece@.subrange(0, j as int).push(piece[j as int]));
            assert(r@ =~= base + seq!['/'] + piece@.subrange(0, j + 1));
            j = j + 1;
        }
        assert(piece@.subrange(0, piece.len() as int) =~= piece@);
        let ghost next = texts(comps@).subrange(n as int, i + 1);
        assert(next.drop_last() =~= texts(comps@).subrange(n as int, i as int));
        assert(next.last() == piece@);
        i = i + 1;
    }
    r
}

/// Strips `n` leading components from `p`; `None` where `p` has fewer.
pub fn strip(p: Vec<char>, n: u8) -> (r: Option<Vec<char>>)
    ensures
        match r {
            Some(v) => stripped(p@, n as nat) == Some(v@),
            None => stripped(p@, n as nat) is None,
        },
{
    if n == 0 {
        return Some(p);
    }
    let comps = split_components(&p);
    if comps.len() < n as usize {
        None
    } else {
        Some(join_from(&comps, n as usize))
    }
}

/// Every closed piece of a scan is kept, and no piece holds a slash.
proof fn lemma_scan_shape(s: Seq<char>)
    ensures
        forall|i: int|
            0 <= i < scan(s).0.len() ==> is_kept(#[trigger] scan(s).0[i]) && !scan(s).0[i].contains(
                '/',
            ),
        !scan(s).1.contains('/'),
    decreases s.len(),
{
    if s.len() > 0 {
        lemma_scan_shape(s.drop_last());
        let (done, open) = scan(s.drop_last());
        if s.last() != '/' {
            assert forall|j: int| 0 <= j < open.push(s.last()).len() implies open.push(s.last())[j]
                != '/' by {
                if j < open.len() {
                    assert(!open.contains('/'));
                    assert(open[j] != '/');
                }
            }
        }
    }
}

/// Every piece of `s` is kept and holds no slash.
pub proof fn lemma_pieces_shape(s: Seq<char>)
    ensures
        forall|i: int|
            0 <= i < pieces(s).len() ==> is_kept(#[trigger] pieces(s)[i]) && !pieces(s)[i].contains(
                '/',
            ),
{
    lemma_scan_shape(s);
}

/// Text without a slash extends the open piece of a scan.
proof fn lemma_scan_append(s: Seq<char>, c: Seq<char>)
    requires
        !c.contains('/'),
    ensures
        scan(s + c) == (scan(s).0, scan(s).1 + c),
    decreases c.len(),
{
    if c.len() == 0 {
        assert(s + c =~= s);
        assert(scan(s).1 + c =~= scan(s).1);
    } else {
        assert((s + c).drop_last() =~= s + c.drop_last());
        assert(c.last() == c[c.len() - 1]);
        lemma_scan_append(s, c.drop_last());
        assert(scan(s).1 + c.drop_last() + seq![c.last()] =~= scan(s).1 + c);
        assert((scan(s).1 + c.drop_last()).push(c.last()) =~= scan(s).1 + c);
    }
}

/// The pieces of a path joined onto `.` are the pieces joined.
proof fn lemma_rooted_pieces(kept: Seq<Seq<char>>)
    requires
        forall|i: int| 0 <= i < kept.len() ==> is_kept(#[trigger] kept[i]) && !kept[i].contains('/'),
    ensures
        pieces(rooted_at_dot(kept)) == kept,
        rooted_at_dot(kept).len() > 0,
        rooted_at_dot(kept)[0] == '.',
        rooted_at_dot(kept).len() == 1 || rooted_at_dot(kept)[1] == '/',
    decreases kept.len(),
{
    if kept.len() == 0 {
        let dot = seq!['.'];
        assert(dot.drop_last() =~= Seq::<char>::empty());
        assert(Seq::<char>::empty().push('.') =~= dot);
        assert(scan(Seq::<char>::empty()) == (Seq::<Seq<char>>::empty(), Seq::<char>::empty()));
        assert(dot.last() == '.');
        assert(scan(dot) == (Seq::<Seq<char>>::empty(), dot));
        assert(!is_kept(dot));
        assert(pieces(dot) == Seq::<Seq<char>>::empty());
        assert(kept =~= Seq::<Seq<char>>::empty());
    } else {
        let prev = kept.drop_last();
        let c = kept.last();
        assert(c == kept[kept.len() - 1]);
        lemma_rooted_pieces(prev);
        let r = rooted_at_dot(prev);
        let slashed = r.push('/');
        assert(r + seq!['/'] + c =~= slashed + c);
        assert(slashed.drop_last() =~= r);
        assert(scan(slashed) == (prev, Seq::<char>::empty()));
        lemma_scan_append(slashed, c);
        assert(Seq::<char>::empty() + c =~= c);
        assert(scan(rooted_at_dot(kept)) == (prev, c));
        assert(kept.len() - 1 < kept.len());
        assert(is_kept(c));
        assert(pieces(rooted_at_dot(kept)) == prev.push(c));
        assert(prev.push(c) =~= kept);
    }
}

/// A path joined onto `.` reads back as `.` followed by what was joined.
pub proof fn lemma_rooted_components(kept: Seq<Seq<char>>)
    requires
        forall|i: int| 0 <= i < kept.len() ==> is_kept(#[trigger] kept[i]) && !kept[i].contains('/'),
    ensures
        components(rooted_at_dot(kept)) == seq![seq!['.']] + kept,
{
    lemma_rooted_pieces(kept);
}

/// Stripping no component leaves every path as it is.
pub proof fn lemma_strip_zero(p: Seq<char>)
    ensures
        stripped(p, 0) == Some(p),
{
}

/// A path of `k` components is left out when more than `k` are stripped;
/// otherwise, where `n > 0`, what is left reads as `.` followed by its last
/// `k - n` components, in order.
pub proof fn lemma_strip_count(p: Seq<char>, n: nat)
    ensures
        n > components(p).len() ==> stripped(p, n) is None,
        n <= components(p).len() ==> stripped(p, n) is Some,
        0 < n <= components(p).len() ==> components(stripped(p, n)->Some_0) == seq![seq!['.']]
            + components(p).subrange(n as int, components(p).len() as int),
{
    let c = components(p);
    if 0 < n <= c.len() {
        let kept = c.subrange(n as int, c.len() as int);
        lemma_pieces_shape(p);
        assert(lead(p).len() <= 1);
        assert forall|i: int| 0 <= i < kept.len() implies is_kept(#[trigger] kept[i])
            && !kept[i].contains('/') by {
            assert(kept[i] == pieces(p)[n + i - lead(p).len()]);
        }
        lemma_rooted_components(kept);
    }
}

} // verus!
