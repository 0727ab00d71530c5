use vstd::prelude::*;
use vstd::string::*;
use vstd::utf8::*;

use crate::text::{append_bytes, bytes_equal, copy_range, utf8_text};

verus! {

/// The value of `b` read as a hexadecimal digit, as `char::to_digit(16)`
/// gives it for the character with that code.
pub open spec fn hex_value(b: u8) -> Option<u8> {
    if 0x30 <= b <= 0x39 {
        Some((b - 0x30) as u8)
    } else if 0x41 <= b <= 0x46 {
        Some((b - 0x41 + 10) as u8)
    } else if 0x61 <= b <= 0x66 {
        Some((b - 0x61 + 10) as u8)
    } else {
        None
    }
}

/// The byte that the two hexadecimal digits after position `i` of `s` encode,
/// if both are there and are hexadecimal digits.
pub open spec fn hex_pair(s: Seq<u8>, i: int) -> Option<u8> {
    if i + 2 < s.len() {
        match (hex_value(s[i + 1]), hex_value(s[i + 2])) {
            (Some(hi), Some(lo)) => Some((hi * 16 + lo) as u8),
            _ => None,
        }
    } else {
        None
    }
}

/// Percent-decoding: each `%` followed by two hexadecimal digits stands for
/// the byte they encode; any other `%` stands for itself.
pub open spec fn percent_decode(s: Seq<u8>) -> Seq<u8>
    decreases s.len(),
{
    if s.len() == 0 {
        Seq::empty()
    } else if s[0] == 0x25u8 && hex_pair(s, 0) is Some {
        seq![hex_pair(s, 0)->0] + percent_decode(s.subrange(3, s.len() as int))
    } else {
        seq![s[0]] + percent_decode(s.subrange(1, s.len() as int))
    }
}

fn hex_digit(b: u8) -> (r: Option<u8>)
    ensures
        r == hex_value(b),
{
    if 0x30 <= b && b <= 0x39 {
        Some(b - 0x30)
    } else if 0x41 <= b && b <= 0x46 {
        Some(b - 0x41 + 10)
    } else if 0x61 <= b && b <= 0x66 {
        Some(b - 0x61 + 10)
    } else {
        None
    }
}

/// Reads the two hexadecimal digits that follow position `at` of `bytes`.
fn from_hex(bytes: &[u8], at: usize) -> (r: Option<u8>)
    requires
        at < bytes@.len(),
    ensures
        r == hex_pair(bytes@, at as int),
{
    if bytes.len() - at <= 2 {
        return None;
    }
    match (hex_digit(bytes[at + 1]), hex_digit(bytes[at + 2])) {
        (Some(hi), Some(lo)) => Some(hi * 16 + lo),
        _ => None,
    }
}

/// Decodes the percent escapes of a request path into the bytes they stand
/// for; a `%` that no two hexadecimal digits follow is kept as it is. The
/// bytes need not be valid text: `resolve` refuses a path whose are not.
pub fn decode_percents(path: &str) -> (r: Vec<u8>)
    ensures
        r@ == percent_decode(path.spec_bytes()),
{
    decode_bytes(path.as_bytes())
}

fn decode_bytes(bytes: &[u8]) -> (r: Vec<u8>)
    ensures
        r@ == percent_decode(bytes@),
{
    let ghost s = bytes@;
    let mut acc: Vec<u8> = Vec::new();
    let mut i: usize = 0;
    assert(s.subrange(0, s.len() as int) =~= s);
    assert(acc@ + percent_decode(s) =~= percent_decode(s));
    while i < bytes.len()
        invariant
            s == bytes@,
            i <= s.len(),
            percent_decode(s) == acc@ + percent_decode(s.subrange(i as int, s.len() as int)),
        decreases s.len() - i,
    {
        let ghost rest = s.subrange(i as int, s.len() as int);
        let b = bytes[i];
        let decoded = if b == 0x25 { from_hex(bytes, i) } else { None };
        assert(hex_pair(rest, 0) == hex_pair(s, i as int));
        match decoded {
            Some(v) => {
                assert(rest.subrange(3, rest.len() as int) =~= s.subrange(i + 3, s.len() as int));
                acc.push(v);
                i = i + 3;
            },
            None => {
                assert(rest.subrange(1, rest.len() as int) =~= s.subrange(i + 1, s.len() as int));
                acc.push(b);
                i = i + 1;
            },
        }
        assert(percent_decode(s) == acc@ + percent_decode(s.subrange(i as int, s.len() as int)));
    }
    assert(acc@ + percent_decode(s.subrange(i as int, s.len() as int)) =~= acc@);
    acc
}

/// Decoding changes nothing in a path that holds no `%`.
pub proof fn lemma_decode_without_percent(s: Seq<u8>)
    requires
        forall|i: int| 0 <= i < s.len() ==> s[i] != 0x25u8,
    ensures
        percent_decode(s) == s,
    decreases s.len(),
{
    if s.len() > 0 {
        let rest = s.subrange(1, s.len() as int);
        lemma_decode_without_percent(rest);
        assert(s =~= seq![s[0]] + rest);
    }
}


/// The path separator `/`.
pub const SLASH: u8 = 0x2f;

/// The byte `.`.
pub const DOT: u8 = 0x2e;

/// Whether `p` starts at the root directory.
pub open spec fn is_abs(p: Seq<u8>) -> bool {
    p.len() > 0 && p[0] == SLASH
}

/// Whether a piece between two slashes names a directory step: it is neither
/// empty nor `.`.
pub open spec fn is_kept(s: Seq<u8>) -> bool {
    s.len() > 0 && s != seq![DOT]
}

/// Whether a piece is `..`.
pub open spec fn is_parent(s: Seq<u8>) -> bool {
    s == seq![DOT, DOT]
}

/// Reading `p` from the left: the kept pieces that a slash has closed so far,
/// and the piece still being read.
pub open spec fn scan(p: Seq<u8>) -> (Seq<Seq<u8>>, Seq<u8>)
    decreases p.len(),
{
    if p.len() == 0 {
        (Seq::empty(), Seq::empty())
    } else {
        let (done, cur) = scan(p.drop_last());
        if p.last() == SLASH {
            (if is_kept(cur) { done.push(cur) } else { done }, Seq::empty())
        } else {
            (done, cur.push(p.last()))
        }
    }
}

/// The pieces of `p` between slashes, without the empty ones and `.`.
pub open spec fn segments(p: Seq<u8>) -> Seq<Seq<u8>> {
    let (done, cur) = scan(p);
    if is_kept(cur) {
        done.push(cur)
    } else {
        done
    }
}

/// One step of the lexical walk: `..` leaves the last directory, if there is
/// one; any other piece enters a directory of that name.
pub open spec fn walk_step(st: Seq<Seq<u8>>, seg: Seq<u8>) -> Seq<Seq<u8>> {
    if is_parent(seg) {
        if st.len() > 0 {
            st.drop_last()
        } else {
            st
        }
    } else {
        st.push(seg)
    }
}

/// The directories that walking `segs` from the start ends in.
pub open spec fn walk(segs: Seq<Seq<u8>>) -> Seq<Seq<u8>>
    decreases segs.len(),
{
    if segs.len() == 0 {
        Seq::empty()
    } else {
        walk_step(walk(segs.drop_last()), segs.last())
    }
}

/// The pieces of `st` with a slash between each two.
pub open spec fn join_segments(st: Seq<Seq<u8>>) -> Seq<u8>
    decreases st.len(),
{
    if st.len() == 0 {
        Seq::empty()
    } else if st.len() == 1 {
        st[0]
    } else {
        join_segments(st.drop_last()) + seq![SLASH] + st.last()
    }
}

/// The path made of `st`, from the root when `abs` holds.
pub open spec fn render(abs: bool, st: Seq<Seq<u8>>) -> Seq<u8> {
    if abs {
        seq![SLASH] + join_segments(st)
    } else {
        join_segments(st)
    }
}

/// The lexical normal form of `p`: `.` pieces dropped, each `..` folded into
/// the piece before it (and dropped where there is none), no empty pieces.
pub open spec fn normalize(p: Seq<u8>) -> Seq<u8> {
    render(is_abs(p), walk(segments(p)))
}

/// The byte views of a sequence of byte vectors.
pub open spec fn views(v: Seq<Vec<u8>>) -> Seq<Seq<u8>> {
    Seq::new(v.len(), |i: int| v[i]@)
}

fn kept(s: &Vec<u8>) -> (r: bool)
    ensures
        r == is_kept(s@),
{
    if s.len() == 0 {
        false
    } else if s.len() == 1 && s[0] == DOT {
        assert(s@ =~= seq![DOT]);
        false
    } else {
        assert(s@.len() != 1 ==> s@ != seq![DOT]);
        true
    }
}

pub(crate) fn parent(s: &Vec<u8>) -> (r: bool)
    ensures
        r == is_parent(s@),
{
    if s.len() == 2 && s[0] == DOT && s[1] == DOT {
        assert(s@ =~= seq![DOT, DOT]);
        true
    } else {
        false
    }
}

fn apply_segment(stack: &mut Vec<Vec<u8>>, seg: Vec<u8>)
    ensures
        views(final(stack)@) == walk_step(views(old(stack)@), seg@),
{
    if parent(&seg) {
        if stack.len() > 0 {
            stack.pop();
            assert(views(stack@) =~= views(old(stack)@).drop_last());
        }
    } else {
        stack.push(seg);
        assert(views(stack@) =~= views(old(stack)@).push(seg@));
    }
}

fn render_bytes(abs: bool, st: &Vec<Vec<u8>>) -> (r: Vec<u8>)
    ensures
        r@ == render(abs, views(st@)),
{
    let ghost lead: Seq<u8> = if abs { seq![SLASH] } else { Seq::empty() };
    let mut out: Vec<u8> = Vec::new();
    if abs {
        out.push(SLASH);
    }
    let mut k: usize = 0;
    assert(views(st@).subrange(0, 0) =~= Seq::<Seq<u8>>::empty());
    assert(out@ =~= lead + join_segments(views(st@).subrange(0, 0)));
    while k < st.len()
        invariant
            k <= st@.len(),
            out@ == lead + join_segments(views(st@).subrange(0, k as int)),
        decreases st@.len() - k,
    {
        let ghost before = out@;
        if k > 0 {
            out.push(SLASH);
        }
        append_bytes(&mut out, st[k].as_slice());
        let ghost sub = views(st@).subrange(0, k + 1);
        assert(sub.drop_last() =~= views(st@).subrange(0, k as int));
        k = k + 1;
        assert(out@ =~= lead + join_segments(views(st@).subrange(0, k as int)));
    }
    assert(views(st@).subrange(0, k as int) =~= views(st@));
    out
}

/// Normalizes a path lexically, without looking at the file system: `.`
/// pieces are dropped, `..` removes the piece before it, and the separators
/// are reduced to one slash between pieces.
pub fn normalize_path(path: &[u8]) -> (r: Vec<u8>)
    ensures
        r@ == normalize(path@),
{
    let abs = path.len() > 0 && path[0] == SLASH;
    let mut stack: Vec<Vec<u8>> = Vec::new();
    let mut cur: Vec<u8> = Vec::new();
    let mut i: usize = 0;
    assert(path@.subrange(0, 0) =~= Seq::<u8>::empty());
    assert(views(stack@) =~= Seq::<Seq<u8>>::empty());
    while i < path.len()
        invariant
            i <= path@.len(),
            scan(path@.subrange(0, i as int)).1 == cur@,
            views(stack@) == walk(scan(path@.subrange(0, i as int)).0),
        decreases path@.len() - i,
    {
        let ghost prev = path@.subrange(0, i as int);
        assert(path@.subrange(0, i + 1).drop_last() =~= prev);
        if path[i] == SLASH {
            if kept(&cur) {
                let ghost done = scan(prev).0;
                assert(done.push(cur@).drop_last() =~= done);
                apply_segment(&mut stack, cur);
            }
            cur = Vec::new();
        } else {
            cur.push(path[i]);
        }
        i = i + 1;
    }
    assert(path@.subrange(0, i as int) =~= path@);
    if kept(&cur) {
        let ghost done = scan(path@).0;
        assert(done.push(cur@).drop_last() =~= done);
        apply_segment(&mut stack, cur);
    }
    render_bytes(abs, &stack)
}


/// A piece that normalization can leave in a path: kept, not `..`, and
/// without a slash.
pub open spec fn is_clean(s: Seq<u8>) -> bool {
    is_kept(s) && !is_parent(s) && forall|i: int| 0 <= i < s.len() ==> s[i] != SLASH
}

proof fn lemma_scan_pieces(p: Seq<u8>)
    ensures
        forall|k: int|
            0 <= k < scan(p).0.len() ==> is_kept(#[trigger] scan(p).0[k]) && forall|i: int|
                0 <= i < scan(p).0[k].len() ==> scan(p).0[k][i] != SLASH,
        forall|i: int| 0 <= i < scan(p).1.len() ==> scan(p).1[i] != SLASH,
    decreases p.len(),
{
    if p.len() > 0 {
        lemma_scan_pieces(p.drop_last());
        let (done, cur) = scan(p.drop_last());
        if p.last() != SLASH {
            assert forall|i: int| 0 <= i < cur.push(p.last()).len() implies cur.push(
                p.last(),
            )[i] != SLASH by {
                if i < cur.len() {
                    assert(cur.push(p.last())[i] == cur[i]);
                }
            }
        }
    }
}

proof fn lemma_walk_clean(segs: Seq<Seq<u8>>)
    requires
        forall|k: int|
            0 <= k < segs.len() ==> is_kept(#[trigger] segs[k]) && forall|i: int|
                0 <= i < segs[k].len() ==> segs[k][i] != SLASH,
    ensures
        forall|k: int| 0 <= k < walk(segs).len() ==> is_clean(#[trigger] walk(segs)[k]),
    decreases segs.len(),
{
    if segs.len() > 0 {
        let init = segs.drop_last();
        assert forall|k: int| 0 <= k < init.len() implies is_kept(#[trigger] init[k]) && forall|
            i: int,
        | 0 <= i < init[k].len() ==> init[k][i] != SLASH by {
            assert(init[k] == segs[k]);
        }
        lemma_walk_clean(init);
        let st = walk(init);
        let last = segs.last();
        assert(segs[segs.len() - 1] == last);
        if is_parent(last) {
            if st.len() > 0 {
                assert forall|k: int| 0 <= k < st.drop_last().len() implies is_clean(
                    #[trigger] st.drop_last()[k],
                ) by {
                    assert(st.drop_last()[k] == st[k]);
                }
            }
        } else {
            assert forall|k: int| 0 <= k < st.push(last).len() implies is_clean(
                #[trigger] st.push(last)[k],
            ) by {
                if k < st.len() {
                    assert(st.push(last)[k] == st[k]);
                }
            }
        }
    }
}

proof fn lemma_walk_clean_fixed(st: Seq<Seq<u8>>)
    requires
        forall|k: int| 0 <= k < st.len() ==> is_clean(#[trigger] st[k]),
    ensures
        walk(st) == st,
    decreases st.len(),
{
    if st.len() > 0 {
        let init = st.drop_last();
        assert forall|k: int| 0 <= k < init.len() implies is_clean(#[trigger] init[k]) by {
            assert(init[k] == st[k]);
        }
        lemma_walk_clean_fixed(init);
        assert(is_clean(st[st.len() - 1]));
        assert(init.push(st.last()) =~= st);
    }
}

proof fn lemma_scan_append_plain(a: Seq<u8>, c: Seq<u8>)
    requires
        forall|i: int| 0 <= i < c.len() ==> c[i] != SLASH,
    ensures
        scan(a + c) == (scan(a).0, scan(a).1 + c),
    decreases c.len(),
{
    if c.len() == 0 {
        assert(a + c =~= a);
        assert(scan(a).1 + c =~= scan(a).1);
    } else {
        let init = c.drop_last();
        lemma_scan_append_plain(a, init);
        assert((a + c).drop_last() =~= a + init);
        assert((a + c).last() == c[c.len() - 1]);
        assert((scan(a).1 + init).push(c.last()) =~= scan(a).1 + c);
    }
}

/// A piece that a path can hold between slashes: kept, and without a slash.
pub open spec fn is_piece(s: Seq<u8>) -> bool {
    is_kept(s) && forall|i: int| 0 <= i < s.len() ==> s[i] != SLASH
}

proof fn lemma_scan_join(a: Seq<u8>, st: Seq<Seq<u8>>)
    requires
        scan(a).1 == Seq::<u8>::empty(),
        st.len() > 0,
        forall|k: int| 0 <= k < st.len() ==> is_piece(#[trigger] st[k]),
    ensures
        scan(a + join_segments(st)) == (scan(a).0 + st.drop_last(), st.last()),
    decreases st.len(),
{
    assert(is_piece(st[st.len() - 1]));
    if st.len() == 1 {
        lemma_scan_append_plain(a, st[0]);
        assert(Seq::<u8>::empty() + st[0] =~= st[0]);
        assert(scan(a).0 + st.drop_last() =~= scan(a).0);
    } else {
        let init = st.drop_last();
        assert forall|k: int| 0 <= k < init.len() implies is_piece(#[trigger] init[k]) by {
            assert(init[k] == st[k]);
        }
        lemma_scan_join(a, init);
        assert(is_piece(init[init.len() - 1]));
        let x = a + join_segments(init) + seq![SLASH];
        assert(x.drop_last() =~= a + join_segments(init));
        assert((scan(a).0 + init.drop_last()).push(init.last()) =~= scan(a).0 + init);
        assert(scan(x) == (scan(a).0 + init, Seq::<u8>::empty()));
        assert(a + join_segments(st) =~= x + st.last());
        lemma_scan_append_plain(x, st.last());
        assert(Seq::<u8>::empty() + st.last() =~= st.last());
    }
}

proof fn lemma_segments_render(abs: bool, st: Seq<Seq<u8>>)
    requires
        forall|k: int| 0 <= k < st.len() ==> is_clean(#[trigger] st[k]),
    ensures
        segments(render(abs, st)) == st,
        is_abs(render(abs, st)) == abs,
{
    let a: Seq<u8> = if abs { seq![SLASH] } else { Seq::empty() };
    assert(render(abs, st) =~= a + join_segments(st));
    assert(scan(Seq::<u8>::empty()) == (Seq::<Seq<u8>>::empty(), Seq::<u8>::empty()));
    assert(!is_kept(Seq::<u8>::empty()));
    if abs {
        assert(a.drop_last() =~= Seq::<u8>::empty());
        assert(a.last() == SLASH);
    }
    assert(scan(a) == (Seq::<Seq<u8>>::empty(), Seq::<u8>::empty()));
    if st.len() > 0 {
        lemma_scan_join(a, st);
        assert(Seq::<Seq<u8>>::empty() + st.drop_last() =~= st.drop_last());
        assert(is_clean(st[st.len() - 1]));
        assert(st.drop_last().push(st.last()) =~= st);
        if !abs {
            lemma_join_first(st);
            assert(is_clean(st[0]));
        }
    } else {
        assert(a + join_segments(st) =~= a);
    }
}

proof fn lemma_join_first(st: Seq<Seq<u8>>)
    requires
        st.len() > 0,
        st[0].len() > 0,
    ensures
        join_segments(st).len() > 0,
        join_segments(st)[0] == st[0][0],
    decreases st.len(),
{
    if st.len() > 1 {
        let init = st.drop_last();
        assert(init[0] == st[0]);
        lemma_join_first(init);
        let j = join_segments(init) + seq![SLASH] + st.last();
        assert(j[0] == join_segments(init)[0]);
    }
}

proof fn lemma_normal_form(p: Seq<u8>)
    ensures
        forall|k: int|
            0 <= k < walk(segments(p)).len() ==> is_clean(#[trigger] walk(segments(p))[k]),
        segments(normalize(p)) == walk(segments(p)),
        is_abs(normalize(p)) == is_abs(p),
{
    lemma_scan_pieces(p);
    let segs = segments(p);
    let (done, cur) = scan(p);
    assert forall|k: int| 0 <= k < segs.len() implies is_kept(#[trigger] segs[k]) && forall|
        i: int,
    | 0 <= i < segs[k].len() ==> segs[k][i] != SLASH by {
        if k < done.len() {
            assert(segs[k] == done[k]);
        }
    }
    lemma_walk_clean(segs);
    lemma_segments_render(is_abs(p), walk(segs));
}

/// What normalization yields is its own normal form: normalizing twice is
/// normalizing once.
pub proof fn lemma_normalize_idempotent(p: Seq<u8>)
    ensures
        normalize(normalize(p)) == normalize(p),
{
    lemma_normal_form(p);
    lemma_walk_clean_fixed(walk(segments(p)));
}

/// `base` followed by `p`, as `Path::join` puts them together: a path from
/// the root replaces `base`, and one slash goes between the two.
pub open spec fn join_path(base: Seq<u8>, p: Seq<u8>) -> Seq<u8> {
    if is_abs(p) || base.len() == 0 {
        p
    } else if base.last() == SLASH {
        base + p
    } else {
        base + seq![SLASH] + p
    }
}

/// The file a request path names below `base`: decoded, joined, normalized.
pub open spec fn process(path: Seq<u8>, base: Seq<u8>) -> Seq<u8> {
    normalize(join_path(base, percent_decode(path)))
}

fn join_bytes(base: &[u8], p: &[u8]) -> (r: Vec<u8>)
    ensures
        r@ == join_path(base@, p@),
{
    let mut out: Vec<u8> = Vec::new();
    if !(p.len() > 0 && p[0] == SLASH) && base.len() > 0 {
        append_bytes(&mut out, base);
        if base[base.len() - 1] != SLASH {
            out.push(SLASH);
        }
    }
    append_bytes(&mut out, p);
    assert(Seq::<u8>::empty() + p@ =~= p@);
    out
}

/// Decodes the percent escapes of `path`, puts it below `base_dir` and
/// normalizes the result.
pub fn process_path(path: &[u8], base_dir: &[u8]) -> (r: Vec<u8>)
    ensures
        r@ == process(path@, base_dir@),
{
    let filename = decode_bytes(path);
    let joined = join_bytes(base_dir, filename.as_slice());
    normalize_path(joined.as_slice())
}

/// Whether a relative path starts with a `.` piece, which `Path::components`
/// reports as the current directory.
pub open spec fn starts_with_cur(p: Seq<u8>) -> bool {
    !is_abs(p) && p.len() > 0 && p[0] == DOT && (p.len() == 1 || p[1] == SLASH)
}

/// The components of `p` as `Path::components` yields them: the root (as
/// `/`) or a leading current directory (as `.`), then the pieces.
pub open spec fn components(p: Seq<u8>) -> Seq<Seq<u8>> {
    if is_abs(p) {
        seq![seq![SLASH]] + segments(p)
    } else if starts_with_cur(p) {
        seq![seq![DOT]] + segments(p)
    } else {
        segments(p)
    }
}

/// Whether `root` is `p` or one of its ancestors, comparing components as
/// `Path` equality does.
pub open spec fn lies_within(root: Seq<u8>, p: Seq<u8>) -> bool {
    &&& components(root).is_prefix_of(components(p))
    &&& (components(root).len() > 0 || !is_abs(p))
}

pub(crate) fn push_segments(segs: &mut Vec<Vec<u8>>, path: &[u8])
    ensures
        views(final(segs)@) == views(old(segs)@) + segments(path@),
{
    let ghost lead = views(segs@);
    let mut cur: Vec<u8> = Vec::new();
    let mut i: usize = 0;
    assert(path@.subrange(0, 0) =~= Seq::<u8>::empty());
    assert(views(segs@) =~= lead + Seq::<Seq<u8>>::empty());
    while i < path.len()
        invariant
            i <= path@.len(),
            scan(path@.subrange(0, i as int)).1 == cur@,
            views(segs@) == lead + scan(path@.subrange(0, i as int)).0,
        decreases path@.len() - i,
    {
        assert(path@.subrange(0, i + 1).drop_last() =~= path@.subrange(0, i as int));
        if path[i] == SLASH {
            if kept(&cur) {
                let ghost old_segs = segs@;
                let ghost done = scan(path@.subrange(0, i as int)).0;
                let ghost c = cur@;
                segs.push(cur);
                assert(views(segs@) =~= views(old_segs).push(c));
                assert(lead + done.push(c) =~= (lead + done).push(c));
            }
            cur = Vec::new();
        } else {
            cur.push(path[i]);
        }
        i = i + 1;
    }
    assert(path@.subrange(0, i as int) =~= path@);
    if kept(&cur) {
        let ghost old_segs = segs@;
        let ghost done = scan(path@).0;
        let ghost c = cur@;
        segs.push(cur);
        assert(views(segs@) =~= views(old_segs).push(c));
        assert(lead + done.push(c) =~= (lead + done).push(c));
    }
}

fn components_of(path: &[u8]) -> (r: Vec<Vec<u8>>)
    ensures
        views(r@) == components(path@),
{
    let mut out: Vec<Vec<u8>> = Vec::new();
    if path.len() > 0 && path[0] == SLASH {
        let mut root: Vec<u8> = Vec::new();
        root.push(SLASH);
        out.push(root);
        assert(views(out@) =~= seq![seq![SLASH]]);
    } else if path.len() > 0 && path[0] == DOT && (path.len() == 1 || path[1] == SLASH) {
        let mut cur: Vec<u8> = Vec::new();
        cur.push(DOT);
        out.push(cur);
        assert(views(out@) =~= seq![seq![DOT]]);
    } else {
        assert(views(out@) =~= Seq::<Seq<u8>>::empty());
    }
    push_segments(&mut out, path);
    assert(Seq::<Seq<u8>>::empty() + segments(path@) =~= segments(path@));
    out
}

/// Whether `root` is `path` or one of its ancestors.
pub fn is_within(root: &[u8], path: &[u8]) -> (r: bool)
    ensures
        r == lies_within(root@, path@),
{
    let rc = components_of(root);
    let pc = components_of(path);
    if rc.len() == 0 {
        return !(path.len() > 0 && path[0] == SLASH);
    }
    if rc.len() > pc.len() {
        return false;
    }
    let mut k: usize = 0;
    while k < rc.len()
        invariant
            k <= rc@.len() <= pc@.len(),
            views(rc@) == components(root@),
            views(pc@) == components(path@),
            forall|j: int| 0 <= j < k ==> rc@[j]@ == pc@[j]@,
        decreases rc@.len() - k,
    {
        if !bytes_equal(rc[k].as_slice(), pc[k].as_slice()) {
            assert(views(rc@)[k as int] != views(pc@).subrange(0, rc@.len() as int)[k as int]);
            return false;
        }
        k = k + 1;
    }
    assert(views(rc@) =~= views(pc@).subrange(0, rc@.len() as int));
    true
}

/// Drops what `Path::strip_prefix` skips ahead of the rest of a path once
/// its root is removed: slashes and `.` pieces.
pub open spec fn trim_front(s: Seq<u8>) -> Seq<u8>
    decreases s.len(),
{
    if s.len() > 0 && s[0] == SLASH {
        trim_front(s.subrange(1, s.len() as int))
    } else if s.len() == 1 && s[0] == DOT {
        Seq::empty()
    } else if s.len() >= 2 && s[0] == DOT && s[1] == SLASH {
        trim_front(s.subrange(2, s.len() as int))
    } else {
        s
    }
}

/// Drops trailing slashes and trailing `.` pieces, as `Path::strip_prefix`
/// does at the end of what it returns.
pub open spec fn trim_back(s: Seq<u8>) -> Seq<u8>
    decreases s.len(),
{
    if s.len() > 0 && s.last() == SLASH {
        trim_back(s.drop_last())
    } else if s.len() >= 2 && s.last() == DOT && s[s.len() - 2] == SLASH {
        trim_back(s.drop_last())
    } else {
        s
    }
}

/// The document served for a request of the root path: `index.html`.
pub open spec fn default_document() -> Seq<u8> {
    seq![0x69u8, 0x6eu8, 0x64u8, 0x65u8, 0x78u8, 0x2eu8, 0x68u8, 0x74u8, 0x6du8, 0x6cu8]
}

/// The file name a request path asks for: the default document for `/`,
/// the path without its root otherwise.
pub open spec fn request_target(raw: Seq<u8>) -> Seq<u8> {
    if raw == seq![SLASH] {
        default_document()
    } else if is_abs(raw) {
        trim_back(trim_front(raw))
    } else {
        raw
    }
}

/// Whether the escapes of request path `raw` decode to valid text.
pub open spec fn names_text(raw: Seq<u8>) -> bool {
    valid_utf8(percent_decode(request_target(raw)))
}

/// The file that request path `raw` resolves to below `root`, or `None` where
/// its escapes decode to bytes that are not text, or the result would leave
/// `root`.
pub open spec fn resolution(raw: Seq<u8>, root: Seq<u8>) -> Option<Seq<u8>> {
    let p = process(request_target(raw), root);
    if names_text(raw) && lies_within(root, p) {
        Some(p)
    } else {
        None
    }
}

/// The default document's name, `index.html`.
pub fn default_document_name() -> (r: Vec<u8>)
    ensures
        r@ == default_document(),
{
    let mut r: Vec<u8> = Vec::new();
    r.push(0x69);
    r.push(0x6e);
    r.push(0x64);
    r.push(0x65);
    r.push(0x78);
    r.push(0x2e);
    r.push(0x68);
    r.push(0x74);
    r.push(0x6d);
    r.push(0x6c);
    assert(r@ =~= default_document());
    r
}

/// The file name that request path `raw` asks for, relative to the served
/// directory: `index.html` for `/`, otherwise the path without its root.
pub fn target_name(raw: &[u8]) -> (r: Vec<u8>)
    ensures
        r@ == request_target(raw@),
{
    let len = raw.len();
    if len == 1 && raw[0] == SLASH {
        assert(raw@ =~= seq![SLASH]);
        return default_document_name();
    }
    if !(len > 0 && raw[0] == SLASH) {
        return copy_range(raw, 0, len);
    }
    assert(raw@ != seq![SLASH]);
    let mut start: usize = 0;
    let mut more = true;
    assert(raw@.subrange(0, len as int) =~= raw@);
    while more && start < len
        invariant
            start <= len == raw@.len(),
            trim_front(raw@.subrange(start as int, len as int)) == trim_front(raw@),
            !more ==> trim_front(raw@.subrange(start as int, len as int)) == raw@.subrange(
                start as int,
                len as int,
            ),
        decreases len - start + (if more { 1int } else { 0int }),
    {
        let ghost t = raw@.subrange(start as int, len as int);
        if raw[start] == SLASH {
            assert(t.subrange(1, t.len() as int) =~= raw@.subrange(start + 1, len as int));
            start = start + 1;
        } else if start + 1 == len && raw[start] == DOT {
            assert(raw@.subrange(len as int, len as int) =~= Seq::<u8>::empty());
            start = start + 1;
        } else if len - start >= 2 && raw[start] == DOT && raw[start + 1] == SLASH {
            assert(t.subrange(2, t.len() as int) =~= raw@.subrange(start + 2, len as int));
            start = start + 2;
        } else {
            more = false;
        }
    }
    assert(raw@.subrange(len as int, len as int) =~= Seq::<u8>::empty());
    let ghost front = trim_front(raw@);
    assert(front == raw@.subrange(start as int, len as int));
    let mut end: usize = len;
    let mut more = true;
    while more && end > start
        invariant
            start <= end <= len == raw@.len(),
            trim_back(raw@.subrange(start as int, end as int)) == trim_back(front),
            !more ==> trim_back(raw@.subrange(start as int, end as int)) == raw@.subrange(
                start as int,
                end as int,
            ),
        decreases end - start + (if more { 1int } else { 0int }),
    {
        let ghost t = raw@.subrange(start as int, end as int);
        assert(t.drop_last() =~= raw@.subrange(start as int, end - 1));
        if raw[end - 1] == SLASH {
            end = end - 1;
        } else if end - start >= 2 && raw[end - 1] == DOT && raw[end - 2] == SLASH {
            end = end - 1;
        } else {
            more = false;
        }
    }
    copy_range(raw, start, end)
}

/// Whether the escapes of request path `raw` decode to valid text, as a
/// path the server serves must.
pub fn decodes_to_text(raw: &[u8]) -> (r: bool)
    ensures
        r == names_text(raw@),
{
    let target = target_name(raw);
    let decoded = decode_bytes(target.as_slice());
    utf8_text(decoded.as_slice()).is_some()
}

/// Resolves request path `raw` to the file it names below `root`: the
/// default document for `/`, percent escapes decoded, joined to `root` and
/// normalized. `None` where the decoded path is not valid text, and where
/// the result is not `root` or inside it.
pub fn resolve(raw: &[u8], root: &[u8]) -> (r: Option<Vec<u8>>)
    ensures
        r is Some <==> resolution(raw@, root@) is Some,
        r is Some ==> r->0@ == resolution(raw@, root@)->0,
        !names_text(raw@) ==> r is None,
{
    if !decodes_to_text(raw) {
        return None;
    }
    let target = target_name(raw);
    let filename = process_path(target.as_slice(), root);
    if is_within(root, filename.as_slice()) {
        Some(filename)
    } else {
        None
    }
}

/// Whatever `resolve` yields passes the ancestor check that produced it, and
/// is already in normal form, so that checking or normalizing it again
/// accepts it unchanged.
pub proof fn lemma_resolution_stays_within(raw: Seq<u8>, root: Seq<u8>)
    ensures
        resolution(raw, root) matches Some(p) ==> lies_within(root, p) && normalize(p) == p,
{
    let j = join_path(root, percent_decode(request_target(raw)));
    lemma_normalize_idempotent(j);
}

proof fn lemma_join_last(st: Seq<Seq<u8>>)
    requires
        st.len() > 0,
        st.last().len() > 0,
    ensures
        join_segments(st).len() > 0,
        join_segments(st).last() == st.last().last(),
{
    if st.len() > 1 {
        let j = join_segments(st.drop_last()) + seq![SLASH] + st.last();
        assert(j.last() == st.last().last());
    }
}

proof fn lemma_scan_root()
    ensures
        scan(seq![SLASH]) == (Seq::<Seq<u8>>::empty(), Seq::<u8>::empty()),
{
    assert(seq![SLASH].drop_last() =~= Seq::<u8>::empty());
    assert(scan(Seq::<u8>::empty()) == (Seq::<Seq<u8>>::empty(), Seq::<u8>::empty()));
    assert(!is_kept(Seq::<u8>::empty()));
}

/// The part of `r` below `root`: the pieces of `r` after those of `root`,
/// with a slash between each two.
pub open spec fn below(root: Seq<u8>, r: Seq<u8>) -> Seq<u8> {
    join_segments(segments(r).subrange(segments(root).len() as int, segments(r).len() as int))
}

/// Resolving again what the ancestor check accepted gives it back: where
/// `root` is an absolute path in normal form and the file `r` that `p`
/// resolves to lies within it, resolving the part of `r` below `root` (when
/// it holds no `%` to decode) yields `r` again, which the check accepts.
pub proof fn lemma_resolved_path_resolves_again(root: Seq<u8>, p: Seq<u8>)
    requires
        is_abs(root),
        normalize(root) == root,
        lies_within(root, process(p, root)),
        forall|i: int|
            0 <= i < below(root, process(p, root)).len() ==> below(root, process(p, root))[i]
                != 0x25u8,
    ensures
        process(below(root, process(p, root)), root) == process(p, root),
        lies_within(root, process(below(root, process(p, root)), root)),
{
    let d = percent_decode(p);
    let j = join_path(root, d);
    let r = normalize(j);
    assert(is_abs(j)) by {
        if !is_abs(d) {
            assert(j[0] == root[0]);
        }
    }
    lemma_normal_form(j);
    let st = walk(segments(j));
    lemma_normal_form(root);
    let w = walk(segments(root));
    assert(segments(root) == w);
    assert(root == render(true, w));
    assert(segments(r) == st);
    let cr = components(root);
    let cp = components(r);
    assert(cr == seq![seq![SLASH]] + w);
    assert(cp == seq![seq![SLASH]] + st);
    assert(w.len() <= st.len());
    assert forall|k: int| 0 <= k < w.len() implies w[k] == st[k] by {
        assert(cr[k + 1] == w[k]);
        assert(cp[k + 1] == st[k]);
        assert(cp.subrange(0, cr.len() as int)[k + 1] == cp[k + 1]);
    }
    let t = st.subrange(w.len() as int, st.len() as int);
    assert(st =~= w + t);
    assert forall|k: int| 0 <= k < t.len() implies is_clean(#[trigger] t[k]) by {
        assert(t[k] == st[k + w.len()]);
    }
    let rel = join_segments(t);
    assert(below(root, r) == rel);
    lemma_decode_without_percent(rel);
    lemma_walk_clean_fixed(st);
    lemma_scan_root();
    let slash: Seq<u8> = seq![SLASH];
    // the pieces of the root, and where its last one ends
    if w.len() > 0 {
        lemma_scan_join(slash, w);
        assert(Seq::<Seq<u8>>::empty() + w.drop_last() =~= w.drop_last());
        assert(is_clean(w[w.len() - 1]));
        lemma_join_last(w);
        assert(root.last() == w.last().last());
        let a = root + slash;
        assert(a.drop_last() =~= root);
        assert(w.drop_last().push(w.last()) =~= w);
        assert(scan(a) == (w, Seq::<u8>::empty()));
        if t.len() == 0 {
            assert(rel =~= Seq::<u8>::empty());
            assert(join_path(root, rel) =~= a);
            assert(segments(a) == w);
            assert(st =~= w);
        } else {
            lemma_join_first(t);
            assert(is_clean(t[0]));
            assert(join_path(root, rel) =~= a + rel);
            lemma_scan_join(a, t);
            assert(is_clean(t[t.len() - 1]));
            assert((w + t.drop_last()).push(t.last()) =~= st);
            assert(join_path(root, rel)[0] == root[0]);
        }
    } else {
        assert(root =~= slash);
        if t.len() == 0 {
            assert(rel =~= Seq::<u8>::empty());
            assert(join_path(root, rel) =~= root);
            assert(st =~= w);
        } else {
            lemma_join_first(t);
            assert(is_clean(t[0]));
            assert(join_path(root, rel) =~= slash + rel);
            lemma_scan_join(slash, t);
            assert(is_clean(t[t.len() - 1]));
            assert((Seq::<Seq<u8>>::empty() + t.drop_last()).push(t.last()) =~= st);
        }
    }
}

proof fn lemma_ascii_is_text(s: Seq<u8>)
    requires
        forall|i: int| 0 <= i < s.len() ==> s[i] < 0x80,
    ensures
        valid_utf8(s),
    decreases s.len(),
{
    if s.len() > 0 {
        let rest = s.subrange(1, s.len() as int);
        lemma_ascii_is_text(rest);
        assert(pop_first_scalar(s) =~= rest);
    }
}

/// The bytes of the request path `/../etc/passwd`.
pub open spec fn etc_passwd_request() -> Seq<u8> {
    seq![
        SLASH, DOT, DOT, SLASH, 0x65u8, 0x74u8, 0x63u8, SLASH, 0x70u8, 0x61u8, 0x73u8, 0x73u8,
        0x77u8, 0x64u8,
    ]
}

/// The request path `/../etc/passwd` decodes to text but does not resolve
/// below any absolute root in normal form other than `/` whose last piece is
/// not `etc`: the `..` leaves the root, and the ancestor check refuses the
/// result. `route` then answers it with 403 and its traversal comment.
pub proof fn lemma_etc_passwd_is_refused(root: Seq<u8>)
    requires
        is_abs(root),
        normalize(root) == root,
        segments(root).len() > 0,
        segments(root).last() != seq![0x65u8, 0x74u8, 0x63u8],
    ensures
        names_text(etc_passwd_request()),
        resolution(etc_passwd_request(), root) is None,
{
    let raw = etc_passwd_request();
    let rel = raw.subrange(1, raw.len() as int);
    let up: Seq<u8> = seq![DOT, DOT];
    let etc: Seq<u8> = seq![0x65u8, 0x74u8, 0x63u8];
    let passwd: Seq<u8> = seq![0x70u8, 0x61u8, 0x73u8, 0x73u8, 0x77u8, 0x64u8];
    // the target is the path without its root
    assert(raw != seq![SLASH]);
    assert(trim_front(rel) == rel);
    assert(trim_front(raw) == rel);
    assert(trim_back(rel) == rel);
    assert(request_target(raw) == rel);
    lemma_decode_without_percent(rel);
    lemma_ascii_is_text(rel);
    let pieces = seq![up, etc, passwd];
    assert(seq![up, etc].drop_last() =~= seq![up]);
    assert(pieces.drop_last() =~= seq![up, etc]);
    assert(join_segments(seq![up]) == up);
    assert(seq![up, etc].last() == etc);
    assert(pieces.last() == passwd);
    assert(join_segments(seq![up, etc]) == up + seq![SLASH] + etc);
    assert(join_segments(pieces) == join_segments(seq![up, etc]) + seq![SLASH] + passwd);
    assert(rel =~= join_segments(pieces));
    // the pieces of the root, and the slash after it
    lemma_normal_form(root);
    let w = walk(segments(root));
    assert(segments(root) == w);
    assert(root == render(true, w));
    lemma_scan_root();
    let slash: Seq<u8> = seq![SLASH];
    lemma_scan_join(slash, w);
    assert(Seq::<Seq<u8>>::empty() + w.drop_last() =~= w.drop_last());
    assert(is_clean(w[w.len() - 1]));
    lemma_join_last(w);
    let a = root + slash;
    assert(a.drop_last() =~= root);
    assert(w.drop_last().push(w.last()) =~= w);
    assert(scan(a) == (w, Seq::<u8>::empty()));
    let j = join_path(root, rel);
    assert(j =~= a + rel);
    assert forall|k: int| 0 <= k < pieces.len() implies is_piece(#[trigger] pieces[k]) by {
        assert(up != seq![DOT]);
    }
    lemma_scan_join(a, pieces);
    assert(segments(j) =~= w + pieces);
    // walking: `..` leaves the root's last piece
    lemma_walk_clean_fixed(w);
    assert((w + pieces).drop_last() =~= w + seq![up, etc]);
    assert((w + seq![up, etc]).drop_last() =~= w.push(up));
    assert(w.push(up).drop_last() =~= w);
    assert(w.push(up).last() == up);
    assert(is_parent(up));
    assert(walk(w.push(up)) == w.drop_last());
    assert((w + seq![up, etc]).last() == etc);
    assert(!is_parent(etc));
    assert(walk(w + seq![up, etc]) == w.drop_last().push(etc));
    assert((w + pieces).last() == passwd);
    assert(!is_parent(passwd));
    let st = w.drop_last().push(etc).push(passwd);
    assert(walk(w + pieces) == st);
    assert(is_abs(j));
    lemma_normal_form(j);
    let r = normalize(j);
    assert(segments(r) == st);
    let cr = components(root);
    let cp = components(r);
    if lies_within(root, r) {
        assert(cp.subrange(0, cr.len() as int)[w.len() as int] == cr[w.len() as int]);
        assert(cr[w.len() as int] == w[w.len() - 1]);
        assert(cp[w.len() as int] == st[w.len() - 1]);
        assert(st[w.len() - 1] == etc);
    }
}

} // verus!
