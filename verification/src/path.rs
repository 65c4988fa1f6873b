//! The platform path model: an ordered sequence of raw-byte segments with
//! an absolute-path flag, together with the byte-splitting that turns a
//! separated byte string into segments.

use vstd::prelude::*;
use vstd::utf8::encode_utf8;

verus! {

/// The mathematical model of a platform path: whether it is rooted, and the
/// raw bytes of each segment in order.
#[verifier::ext_equal]
pub ghost struct PathModel {
    pub absolute: bool,
    pub segments: Seq<Seq<u8>>,
}

/// True when the segment holds no separator byte `/`.
pub open spec fn slash_free(s: Seq<u8>) -> bool {
    forall|j: int| 0 <= j < s.len() ==> #[trigger] s[j] != 0x2f
}

/// True when the segment holds no backslash. Backslashes split URLs, so
/// only paths whose segments are free of them survive a URL round trip.
pub open spec fn backslash_free(s: Seq<u8>) -> bool {
    forall|j: int| 0 <= j < s.len() ==> #[trigger] s[j] != 0x5c
}

/// A well-formed segment is nonempty and holds no separator byte `/`.
pub open spec fn wf_segment(s: Seq<u8>) -> bool {
    s.len() > 0 && slash_free(s)
}

/// A well-formed path model: every segment is well formed.
pub open spec fn wf_path(m: PathModel) -> bool {
    forall|i: int| 0 <= i < m.segments.len() ==> wf_segment(#[trigger] m.segments[i])
}

/// True when the byte separates path pieces: `/` always, `\` only when
/// both separators are recognized (URLs and Windows-style paths).
pub open spec fn is_separator(b: u8, both: bool) -> bool {
    b == 0x2f || (both && b == 0x5c)
}

/// Splits a byte sequence at its separator bytes. Empty pieces are kept:
/// the result always holds one more piece than the input holds separators.
pub open spec fn split_bytes_spec(s: Seq<u8>, both: bool) -> Seq<Seq<u8>>
    decreases s.len(),
{
    if s.len() == 0 {
        seq![Seq::<u8>::empty()]
    } else if is_separator(s[0], both) {
        seq![Seq::<u8>::empty()] + split_bytes_spec(s.drop_first(), both)
    } else {
        let rest = split_bytes_spec(s.drop_first(), both);
        seq![seq![s[0]] + rest[0]] + rest.drop_first()
    }
}

/// Splitting always yields at least one piece, and no piece holds a
/// separator byte.
pub proof fn lemma_split_bytes_shape(s: Seq<u8>, both: bool)
    ensures
        split_bytes_spec(s, both).len() >= 1,
        forall|i: int, j: int|
            0 <= i < split_bytes_spec(s, both).len() && 0 <= j < split_bytes_spec(s, both)[i].len()
                ==> !is_separator(#[trigger] split_bytes_spec(s, both)[i][j], both),
    decreases s.len(),
{
    if s.len() == 0 {
    } else if is_separator(s[0], both) {
        lemma_split_bytes_shape(s.drop_first(), both);
    } else {
        lemma_split_bytes_shape(s.drop_first(), both);
        let rest = split_bytes_spec(s.drop_first(), both);
        let r = split_bytes_spec(s, both);
        assert forall|i: int, j: int|
            0 <= i < r.len() && 0 <= j < r[i].len() implies !is_separator(
            #[trigger] r[i][j],
            both,
        ) by {
            if i == 0 {
                if j == 0 {
                    assert(r[0][0] == s[0]);
                } else {
                    assert(r[0][j] == rest[0][j - 1]);
                }
            } else {
                assert(r[i] == rest[i]);
            }
        }
    }
}

/// Appending one byte either extends the last piece or, for a separator,
/// opens a new empty piece.
pub proof fn lemma_split_bytes_push(s: Seq<u8>, b: u8, both: bool)
    ensures
        is_separator(b, both) ==> split_bytes_spec(s.push(b), both) == split_bytes_spec(
            s,
            both,
        ).push(Seq::<u8>::empty()),
        !is_separator(b, both) ==> split_bytes_spec(s.push(b), both) == split_bytes_spec(
            s,
            both,
        ).drop_last().push(split_bytes_spec(s, both).last().push(b)),
    decreases s.len(),
{
    lemma_split_bytes_shape(s, both);
    let p = s.push(b);
    if s.len() == 0 {
        assert(p.len() == 1);
        assert(p[0] == b);
        assert(p.drop_first() =~= Seq::<u8>::empty());
        assert(split_bytes_spec(Seq::<u8>::empty(), both) == seq![Seq::<u8>::empty()]);
        assert(split_bytes_spec(p.drop_first(), both) == seq![Seq::<u8>::empty()]);
        assert(s =~= Seq::<u8>::empty());
        assert(split_bytes_spec(s, both) == seq![Seq::<u8>::empty()]);
        if is_separator(b, both) {
            assert(split_bytes_spec(p, both) =~~= split_bytes_spec(s, both).push(
                Seq::<u8>::empty(),
            ));
        } else {
            assert(split_bytes_spec(p, both) =~~= split_bytes_spec(s, both).drop_last().push(
                split_bytes_spec(s, both).last().push(b),
            ));
        }
    } else {
        assert(p[0] == s[0]);
        assert(p.drop_first() =~= s.drop_first().push(b));
        lemma_split_bytes_push(s.drop_first(), b, both);
        lemma_split_bytes_shape(s.drop_first(), both);
        let rest = split_bytes_spec(s.drop_first(), both);
        let restp = split_bytes_spec(s.drop_first().push(b), both);
        if is_separator(s[0], both) {
            if is_separator(b, both) {
                assert(split_bytes_spec(p, both) =~~= split_bytes_spec(s, both).push(
                    Seq::<u8>::empty(),
                ));
            } else {
                assert(split_bytes_spec(p, both) =~~= split_bytes_spec(s, both).drop_last().push(
                    split_bytes_spec(s, both).last().push(b),
                ));
            }
        } else {
            if is_separator(b, both) {
                assert(restp[0] == rest[0]);
                assert(split_bytes_spec(p, both) =~~= split_bytes_spec(s, both).push(
                    Seq::<u8>::empty(),
                ));
            } else {
                if rest.len() == 1 {
                    assert(restp[0] == rest[0].push(b));
                } else {
                    assert(restp[0] == rest[0]);
                }
                assert(split_bytes_spec(p, both) =~~= split_bytes_spec(s, both).drop_last().push(
                    split_bytes_spec(s, both).last().push(b),
                ));
            }
        }
    }
}

/// The views of a sequence of byte vectors.
pub open spec fn seq_views(v: Seq<Vec<u8>>) -> Seq<Seq<u8>> {
    v.map_values(|x: Vec<u8>| x@)
}

/// Splits a byte vector at its separator bytes, keeping empty pieces.
pub(crate) fn split_bytes(v: &Vec<u8>, both: bool) -> (r: Vec<Vec<u8>>)
    ensures
        seq_views(r@) == split_bytes_spec(v@, both),
        r@.len() >= 1,
{
    let mut done: Vec<Vec<u8>> = Vec::new();
    let mut cur: Vec<u8> = Vec::new();
    let mut i: usize = 0;
    proof {
        assert(v@.take(0) =~= Seq::<u8>::empty());
        assert(seq_views(done@).push(cur@) =~~= split_bytes_spec(v@.take(0), both));
    }
    while i < v.len()
        invariant
            i <= v.len(),
            seq_views(done@).push(cur@) == split_bytes_spec(v@.take(i as int), both),
        decreases v.len() - i,
    {
        let ghost prefix = v@.take(i as int);
        proof {
            lemma_split_bytes_push(prefix, v@[i as int], both);
            assert(prefix.push(v@[i as int]) =~= v@.take(i as int + 1));
        }
        let b = v[i];
        let ghost done0 = done@;
        let ghost cur0 = cur@;
        if b == 0x2f || (both && b == 0x5c) {
            done.push(cur);
            cur = Vec::new();
            proof {
                assert(seq_views(done@).push(cur@) =~~= split_bytes_spec(prefix, both).push(
                    Seq::<u8>::empty(),
                ));
            }
        } else {
            cur.push(b);
            proof {
                let sp = split_bytes_spec(prefix, both);
                assert(seq_views(done0).push(cur0) == sp);
                assert(sp.last() == cur0);
                assert(sp.drop_last() =~= seq_views(done0));
                assert(seq_views(done@).push(cur@) =~~= sp.drop_last().push(sp.last().push(b)));
            }
        }
        i += 1;
    }
    proof {
        assert(v@.take(v.len() as int) =~= v@);
    }
    done.push(cur);
    proof {
        assert(seq_views(done@) =~~= split_bytes_spec(v@, both));
    }
    done
}

/// The nonempty pieces of a piece sequence, in order.
pub open spec fn nonempty_pieces(p: Seq<Seq<u8>>) -> Seq<Seq<u8>>
    decreases p.len(),
{
    if p.len() == 0 {
        Seq::empty()
    } else if p[0].len() > 0 {
        seq![p[0]] + nonempty_pieces(p.drop_first())
    } else {
        nonempty_pieces(p.drop_first())
    }
}

/// When every piece is free of `/`, the nonempty pieces form well-formed
/// segments.
pub proof fn lemma_nonempty_pieces_wf(p: Seq<Seq<u8>>)
    requires
        forall|i: int| 0 <= i < p.len() ==> slash_free(#[trigger] p[i]),
    ensures
        forall|i: int|
            0 <= i < nonempty_pieces(p).len() ==> wf_segment(#[trigger] nonempty_pieces(p)[i]),
    decreases p.len(),
{
    if p.len() > 0 {
        lemma_nonempty_pieces_wf(p.drop_first());
        let rest = nonempty_pieces(p.drop_first());
        assert forall|i: int|
            0 <= i < nonempty_pieces(p).len() implies wf_segment(
            #[trigger] nonempty_pieces(p)[i],
        ) by {
            if p[0].len() > 0 {
                if i == 0 {
                    assert(nonempty_pieces(p)[0] == p[0]);
                } else {
                    assert(nonempty_pieces(p)[i] == rest[i - 1]);
                }
            }
        }
    }
}

/// Keeps the nonempty pieces, in order.
pub(crate) fn collect_nonempty(pieces: Vec<Vec<u8>>) -> (r: Vec<Vec<u8>>)
    ensures
        seq_views(r@) == nonempty_pieces(seq_views(pieces@)),
{
    let mut rest = pieces;
    let mut out: Vec<Vec<u8>> = Vec::new();
    let ghost orig = seq_views(rest@);
    proof {
        assert(seq_views(out@) + nonempty_pieces(seq_views(rest@)) =~~= nonempty_pieces(orig));
    }
    while rest.len() > 0
        invariant
            nonempty_pieces(orig) == seq_views(out@) + nonempty_pieces(seq_views(rest@)),
        decreases rest.len(),
    {
        let ghost before = seq_views(rest@);
        let ghost out0 = out@;
        let p = rest.remove(0);
        proof {
            assert(seq_views(rest@) =~~= before.drop_first());
            assert(before[0] == p@);
        }
        if p.len() > 0 {
            out.push(p);
            proof {
                assert(seq_views(out@) =~~= seq_views(out0).push(p@));
                assert(seq_views(out@) + nonempty_pieces(seq_views(rest@)) =~~= nonempty_pieces(
                    orig,
                ));
            }
        } else {
            proof {
                assert(seq_views(out@) + nonempty_pieces(seq_views(rest@)) =~~= nonempty_pieces(
                    orig,
                ));
            }
        }
    }
    proof {
        assert(nonempty_pieces(seq_views(rest@)) == Seq::<Seq<u8>>::empty());
        assert(seq_views(out@) =~~= nonempty_pieces(orig));
    }
    out
}

/// Joins pieces with the separator byte `/` between them.
pub open spec fn join_slash(pieces: Seq<Seq<u8>>) -> Seq<u8>
    decreases pieces.len(),
{
    if pieces.len() == 0 {
        Seq::empty()
    } else if pieces.len() == 1 {
        pieces[0]
    } else {
        pieces[0] + seq![0x2fu8] + join_slash(pieces.drop_first())
    }
}

/// Appending one piece appends a separator (when the join is nonempty so
/// far) followed by the piece's bytes.
pub proof fn lemma_join_slash_push(pieces: Seq<Seq<u8>>, x: Seq<u8>)
    ensures
        pieces.len() == 0 ==> join_slash(pieces.push(x)) == x,
        pieces.len() > 0 ==> join_slash(pieces.push(x)) == join_slash(pieces) + seq![0x2fu8] + x,
    decreases pieces.len(),
{
    let p = pieces.push(x);
    if pieces.len() == 0 {
        assert(p.len() == 1);
        assert(join_slash(p) == p[0]);
        assert(p[0] == x);
    } else if pieces.len() == 1 {
        assert(p.drop_first() =~= seq![x]);
        assert(join_slash(p.drop_first()) == x);
        assert(join_slash(p) =~= join_slash(pieces) + seq![0x2fu8] + x);
    } else {
        assert(p[0] == pieces[0]);
        assert(p.drop_first() =~= pieces.drop_first().push(x));
        lemma_join_slash_push(pieces.drop_first(), x);
        assert(join_slash(p) == p[0] + seq![0x2fu8] + join_slash(pieces.drop_first().push(x)));
        assert(join_slash(p) =~= join_slash(pieces) + seq![0x2fu8] + x);
    }
}

/// True for ASCII letters.
pub open spec fn is_ascii_letter(b: u8) -> bool {
    (0x41 <= b && b <= 0x5a) || (0x61 <= b && b <= 0x7a)
}

/// True for a drive token: one ASCII letter followed by `:`.
pub open spec fn is_drive_token(s: Seq<u8>) -> bool {
    s.len() == 2 && is_ascii_letter(s[0]) && s[1] == 0x3a
}

/// The path model a POSIX-style byte string parses to: rooted when it
/// begins with `/`, its segments the nonempty pieces between `/` bytes.
/// A backslash is an ordinary byte here, not a separator.
pub open spec fn posix_path_model(b: Seq<u8>) -> PathModel {
    PathModel {
        absolute: b.len() > 0 && b[0] == 0x2f,
        segments: nonempty_pieces(split_bytes_spec(b, false)),
    }
}

/// The path model a Windows-style byte string parses to: both `/` and `\`
/// separate, and the path is rooted when it begins with a separator or
/// its first segment is a drive token.
pub open spec fn windows_path_model(b: Seq<u8>) -> PathModel {
    let pieces = nonempty_pieces(split_bytes_spec(b, true));
    PathModel {
        absolute: (b.len() > 0 && is_separator(b[0], true)) || (pieces.len() > 0 && is_drive_token(
            pieces[0],
        )),
        segments: pieces,
    }
}

/// A platform path held as raw bytes: an absolute-path flag and the byte
/// segments in order.
#[derive(Debug, Clone, PartialEq, Eq)]
pub struct FilePath {
    absolute: bool,
    segments: Vec<Vec<u8>>,
}

impl View for FilePath {
    type V = PathModel;

    closed spec fn view(&self) -> PathModel {
        PathModel { absolute: self.absolute, segments: seq_views(self.segments@) }
    }
}

impl FilePath {
    /// A well-formed path: every segment nonempty and free of `/`.
    pub open spec fn wf(&self) -> bool {
        wf_path(self@)
    }

    /// Builds a path from its parts.
    pub(crate) fn from_parts(absolute: bool, segments: Vec<Vec<u8>>) -> (r: FilePath)
        ensures
            r@ == (PathModel { absolute, segments: seq_views(segments@) }),
    {
        FilePath { absolute, segments }
    }

    /// Whether the path is rooted.
    pub fn is_absolute(&self) -> (r: bool)
        ensures
            r == self@.absolute,
    {
        self.absolute
    }

    /// The number of segments.
    pub fn segment_count(&self) -> (r: usize)
        ensures
            r == self@.segments.len(),
    {
        self.segments.len()
    }

    /// The raw bytes of one segment.
    pub fn segment(&self, i: usize) -> (r: &Vec<u8>)
        requires
            i < self@.segments.len(),
        ensures
            r@ == self@.segments[i as int],
    {
        &self.segments[i]
    }

    /// Parses a POSIX-style byte string: `/` separates segments, a leading
    /// `/` roots the path, and empty pieces are dropped.
    pub fn from_posix_bytes(path: &Vec<u8>) -> (r: FilePath)
        ensures
            r@ == posix_path_model(path@),
            r.wf(),
    {
        let pieces = split_bytes(path, false);
        let segments = collect_nonempty(pieces);
        let absolute = path.len() > 0 && path[0] == 0x2f;
        proof {
            lemma_split_bytes_shape(path@, false);
            lemma_nonempty_pieces_wf(split_bytes_spec(path@, false));
        }
        FilePath { absolute, segments }
    }

    /// Parses a POSIX-style path from the UTF-8 bytes of a string.
    pub fn from_posix_str(path: &str) -> (r: FilePath)
        ensures
            r@ == posix_path_model(encode_utf8(path@)),
            r.wf(),
    {
        let bytes = path.as_bytes_vec();
        FilePath::from_posix_bytes(&bytes)
    }

    /// Parses a Windows-style byte string: `/` and `\` both separate, and
    /// the path is rooted when it begins with a separator or with a drive
    /// token such as `c:`.
    pub fn from_windows_bytes(path: &Vec<u8>) -> (r: FilePath)
        ensures
            r@ == windows_path_model(path@),
            r.wf(),
    {
        let pieces = split_bytes(path, true);
        let segments = collect_nonempty(pieces);
        let mut absolute = path.len() > 0 && (path[0] == 0x2f || path[0] == 0x5c);
        if !absolute && segments.len() > 0 {
            let first = &segments[0];
            if first.len() == 2 && first[1] == 0x3a {
                let c = first[0];
                if (0x41 <= c && c <= 0x5a) || (0x61 <= c && c <= 0x7a) {
                    absolute = true;
                }
            }
        }
        proof {
            lemma_split_bytes_shape(path@, true);
            lemma_nonempty_pieces_wf(split_bytes_spec(path@, true));
        }
        FilePath { absolute, segments }
    }

    /// Parses a Windows-style path from the UTF-8 bytes of a string.
    pub fn from_windows_str(path: &str) -> (r: FilePath)
        ensures
            r@ == windows_path_model(encode_utf8(path@)),
            r.wf(),
    {
        let bytes = path.as_bytes_vec();
        FilePath::from_windows_bytes(&bytes)
    }

    /// The POSIX-style bytes of the path: a leading `/` when it is rooted,
    /// and the raw segments joined with `/`.
    #[verifier::loop_isolation(false)]
    pub fn to_posix_bytes(&self) -> (r: Vec<u8>)
        ensures
            r@ == posix_bytes(self@),
    {
        let mut out: Vec<u8> = Vec::new();
        if self.absolute {
            out.push(0x2f);
        }
        let ghost lead = if self@.absolute {
            seq![0x2fu8]
        } else {
            Seq::<u8>::empty()
        };
        proof {
            assert(out@ =~= lead);
            assert(join_slash(self@.segments.take(0)) =~= Seq::<u8>::empty());
            assert(out@ =~= lead + join_slash(self@.segments.take(0)));
        }
        let n = self.segments.len();
        let mut i: usize = 0;
        while i < n
            invariant
                i <= n,
                out@ == lead + join_slash(self@.segments.take(i as int)),
            decreases n - i,
        {
            let ghost taken = self@.segments.take(i as int);
            if i > 0 {
                out.push(0x2f);
            }
            let mut seg = copy_bytes(&self.segments[i]);
            out.append(&mut seg);
            proof {
                lemma_join_slash_push(taken, self@.segments[i as int]);
                assert(taken.push(self@.segments[i as int]) =~= self@.segments.take(i as int + 1));
                assert(out@ =~= lead + join_slash(self@.segments.take(i as int + 1)));
            }
            i += 1;
        }
        proof {
            assert(self@.segments.take(n as int) =~= self@.segments);
        }
        out
    }
}

/// Copies a byte vector.
fn copy_bytes(v: &Vec<u8>) -> (r: Vec<u8>)
    ensures
        r@ == v@,
{
    let mut out: Vec<u8> = Vec::new();
    let mut i: usize = 0;
    while i < v.len()
        invariant
            i <= v.len(),
            out@ == v@.take(i as int),
        decreases v.len() - i,
    {
        out.push(v[i]);
        proof {
            assert(v@.take(i as int).push(v@[i as int]) =~= v@.take(i as int + 1));
        }
        i += 1;
    }
    proof {
        assert(v@.take(v.len() as int) =~= v@);
    }
    out
}

/// The POSIX-style byte form of a path model: a leading `/` when rooted,
/// segments joined with `/`.
pub open spec fn posix_bytes(m: PathModel) -> Seq<u8> {
    (if m.absolute {
        seq![0x2fu8]
    } else {
        Seq::<u8>::empty()
    }) + join_slash(m.segments)
}

} // verus!
