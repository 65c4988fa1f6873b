//! The path/URL translator: a path's segments become a `file://` URL by
//! encoding each segment and joining with `/`; a URL becomes a path by
//! splitting at `/` and `\`, recognizing the scheme token, and decoding
//! every remaining piece.

use vstd::prelude::*;
use vstd::utf8::encode_utf8;

use crate::codec::decode_bytes_vec;
use crate::codec::decoded_bytes;
use crate::codec::encode_bytes_vec;
use crate::codec::encoded_bytes;
use crate::codec::lemma_encoded_bytes_ascii;
use crate::codec::string_from_ascii;
use crate::path::backslash_free;
use crate::path::is_drive_token;
use crate::path::is_separator;
use crate::path::join_slash;
use crate::path::lemma_join_slash_push;
use crate::path::nonempty_pieces;
use crate::path::seq_views;
use crate::path::split_bytes;
use crate::path::split_bytes_spec;
use crate::path::wf_path;
use crate::path::wf_segment;
use crate::path::FilePath;
use crate::path::PathModel;

verus! {

/// The bytes of the scheme token `file:`.
pub open spec fn scheme_bytes() -> Seq<u8> {
    seq![0x66u8, 0x69, 0x6c, 0x65, 0x3a]
}

/// The bytes of the URL template prefix `file:///`.
pub open spec fn url_prefix_bytes() -> Seq<u8> {
    seq![0x66u8, 0x69, 0x6c, 0x65, 0x3a, 0x2f, 0x2f, 0x2f]
}

/// The percent-encoded forms of the segments, in order.
pub open spec fn encoded_segments(segs: Seq<Seq<u8>>) -> Seq<Seq<u8>> {
    segs.map_values(|s: Seq<u8>| encoded_bytes(s))
}

/// The URL bytes for a path model: `file:///` followed by the encoded
/// segments joined with `/`. The root marker contributes no segment of its
/// own; it is implied by the template.
pub open spec fn path_to_url_bytes(m: PathModel) -> Seq<u8> {
    url_prefix_bytes() + join_slash(encoded_segments(m.segments))
}

/// The segments one URL piece contributes to the path: its lenient
/// decoding, split again at `/` (a decoded `%2F` opens a new segment
/// boundary rather than hiding a separator in a segment), empty pieces
/// dropped.
pub open spec fn piece_segments(piece: Seq<u8>) -> Seq<Seq<u8>> {
    nonempty_pieces(split_bytes_spec(decoded_bytes(piece), false))
}

/// The segments a sequence of URL pieces contributes, concatenated in
/// order.
pub open spec fn pieces_segments(pieces: Seq<Seq<u8>>) -> Seq<Seq<u8>>
    decreases pieces.len(),
{
    if pieces.len() == 0 {
        Seq::empty()
    } else {
        piece_segments(pieces[0]) + pieces_segments(pieces.drop_first())
    }
}

/// Appending one piece appends the segments it contributes.
pub proof fn lemma_pieces_segments_push(pieces: Seq<Seq<u8>>, x: Seq<u8>)
    ensures
        pieces_segments(pieces.push(x)) == pieces_segments(pieces) + piece_segments(x),
    decreases pieces.len(),
{
    let p = pieces.push(x);
    if pieces.len() == 0 {
        assert(p[0] == x);
        assert(p.drop_first() =~= Seq::<Seq<u8>>::empty());
        assert(pieces_segments(p.drop_first()) == Seq::<Seq<u8>>::empty());
        assert(pieces_segments(p) =~= pieces_segments(pieces) + piece_segments(x));
    } else {
        assert(p[0] == pieces[0]);
        assert(p.drop_first() =~= pieces.drop_first().push(x));
        lemma_pieces_segments_push(pieces.drop_first(), x);
        assert(pieces_segments(p) == piece_segments(pieces[0]) + pieces_segments(
            pieces.drop_first().push(x),
        ));
        assert(pieces_segments(p) =~= pieces_segments(pieces) + piece_segments(x));
    }
}

/// The path model a URL's bytes convert to. The input is split at `/` and
/// `\`; when the first piece is the scheme token `file:` it stands for the
/// root marker and the path is absolute; every other piece contributes its
/// decoded segments.
pub open spec fn url_to_path_model(u: Seq<u8>) -> PathModel {
    let pieces = split_bytes_spec(u, true);
    if pieces[0] == scheme_bytes() {
        PathModel { absolute: true, segments: pieces_segments(pieces.drop_first()) }
    } else {
        PathModel { absolute: false, segments: pieces_segments(pieces) }
    }
}

/// Decides whether a piece is exactly the scheme token `file:`.
fn is_scheme_piece(p: &Vec<u8>) -> (r: bool)
    ensures
        r == (p@ == scheme_bytes()),
{
    if p.len() == 5 {
        let r = p[0] == 0x66 && p[1] == 0x69 && p[2] == 0x6c && p[3] == 0x65 && p[4] == 0x3a;
        proof {
            if r {
                assert(p@ =~= scheme_bytes());
            }
        }
        r
    } else {
        false
    }
}

/// Turns a file URL into a platform path. The URL's UTF-8 bytes are split
/// at `/` and `\`; a leading `file:` piece becomes the root marker; every
/// other piece is leniently percent-decoded into path segments.
#[verifier::loop_isolation(false)]
pub fn file_url_to_pathbuf(file_url: &str) -> (r: FilePath)
    ensures
        r@ == url_to_path_model(encode_utf8(file_url@)),
{
    let bytes = file_url.as_bytes_vec();
    let pieces = split_bytes(&bytes, true);
    let ghost all = seq_views(pieces@);
    let absolute = is_scheme_piece(&pieces[0]);
    let ghost rv = if absolute {
        all.drop_first()
    } else {
        all
    };
    let start: usize = if absolute {
        1
    } else {
        0
    };
    let mut segments: Vec<Vec<u8>> = Vec::new();
    let mut i: usize = start;
    proof {
        assert(rv.take(0) =~= Seq::<Seq<u8>>::empty());
        assert(seq_views(segments@) =~= pieces_segments(rv.take(0)));
    }
    while i < pieces.len()
        invariant
            start <= i <= pieces.len(),
            seq_views(segments@) == pieces_segments(rv.take(i - start)),
        decreases pieces.len() - i,
    {
        let ghost k = i - start;
        let decoded = decode_bytes_vec(&pieces[i]);
        let subs = split_bytes(&decoded, false);
        let mut ne = crate::path::collect_nonempty(subs);
        let ghost seg0 = segments@;
        let ghost ne0 = ne@;
        proof {
            assert(rv[k] == all[i as int]);
            assert(all[i as int] == pieces@[i as int]@);
            assert(seq_views(ne@) == piece_segments(rv[k]));
            lemma_pieces_segments_push(rv.take(k), rv[k]);
            assert(rv.take(k).push(rv[k]) =~= rv.take(k + 1));
        }
        segments.append(&mut ne);
        proof {
            assert(seq_views(segments@) =~~= seq_views(seg0) + seq_views(ne0));
            assert(seq_views(segments@) =~~= pieces_segments(rv.take(k + 1)));
        }
        i += 1;
    }
    proof {
        assert(rv.take(pieces@.len() - start) =~= rv);
    }
    let r = FilePath::from_parts(absolute, segments);
    proof {
        assert(r@ =~~= url_to_path_model(encode_utf8(file_url@)));
    }
    r
}

/// Converts a path into a `file://` URL.
pub trait PathFileUrlExt {
    /// The path model the conversion speaks of.
    spec fn path_model(&self) -> PathModel;

    /// The `file://` URL for this path: the template prefix followed by
    /// the percent-encoded segments joined with `/`.
    fn to_file_url(&self) -> (r: String)
        ensures
            encode_utf8(r@) == path_to_url_bytes(self.path_model()),
    ;
}

/// Seals [`PathFromFileUrlExt`] to the types this crate provides.
pub trait Sealed {
}

/// Constructs a path from a file URL.
pub trait PathFromFileUrlExt: PathFileUrlExt + Sealed + Sized {
    /// The path the URL converts to.
    fn from_file_url(file_url: &str) -> (r: Self)
        ensures
            r.path_model() == url_to_path_model(encode_utf8(file_url@)),
    ;
}

impl PathFileUrlExt for FilePath {
    open spec fn path_model(&self) -> PathModel {
        self@
    }

    fn to_file_url(&self) -> (r: String) {
        let mut out: Vec<u8> = Vec::new();
        out.push(0x66);
        out.push(0x69);
        out.push(0x6c);
        out.push(0x65);
        out.push(0x3a);
        out.push(0x2f);
        out.push(0x2f);
        out.push(0x2f);
        proof {
            assert(out@ =~= url_prefix_bytes());
            assert(encoded_segments(self@.segments.take(0)) =~= Seq::<Seq<u8>>::empty());
            assert(out@ =~= url_prefix_bytes() + join_slash(encoded_segments(self@.segments.take(0))));
        }
        let n = self.segment_count();
        let mut i: usize = 0;
        while i < n
            invariant
                i <= n,
                n == self@.segments.len(),
                out@ == url_prefix_bytes() + join_slash(encoded_segments(self@.segments.take(i as int))),
                forall|k: int| 0 <= k < out@.len() ==> #[trigger] out@[k] < 0x80,
            decreases n - i,
        {
            let ghost taken = encoded_segments(self@.segments.take(i as int));
            let ghost enc_i = encoded_bytes(self@.segments[i as int]);
            if i > 0 {
                out.push(0x2f);
            }
            let mut enc = encode_bytes_vec(self.segment(i));
            out.append(&mut enc);
            proof {
                lemma_join_slash_push(taken, enc_i);
                assert(taken.push(enc_i) =~~= encoded_segments(self@.segments.take(i as int + 1)));
                assert(taken.len() == i);
                if i == 0 {
                    assert(join_slash(taken.push(enc_i)) == enc_i);
                } else {
                    assert(join_slash(taken.push(enc_i)) == join_slash(taken) + seq![0x2fu8]
                        + enc_i);
                }
                assert(out@ =~= url_prefix_bytes() + join_slash(encoded_segments(
                    self@.segments.take(i as int + 1),
                )));
                lemma_encoded_bytes_ascii(self@.segments[i as int]);
            }
            i += 1;
        }
        proof {
            assert(self@.segments.take(n as int) =~= self@.segments);
        }
        string_from_ascii(out)
    }
}

impl Sealed for FilePath {
}

/// Splitting a byte sequence free of separators yields that sequence as
/// the single piece.
pub proof fn lemma_split_sep_free(p: Seq<u8>, both: bool)
    requires
        forall|j: int| 0 <= j < p.len() ==> !is_separator(#[trigger] p[j], both),
    ensures
        split_bytes_spec(p, both) == seq![p],
    decreases p.len(),
{
    if p.len() == 0 {
        assert(split_bytes_spec(p, both) =~~= seq![p]);
    } else {
        lemma_split_sep_free(p.drop_first(), both);
        assert(split_bytes_spec(p, both) =~~= seq![p]);
    }
}

/// Splitting a separator-free piece, a separator, and a tail yields the
/// piece followed by the split of the tail.
pub proof fn lemma_split_prefix(p: Seq<u8>, t: Seq<u8>, both: bool)
    requires
        forall|j: int| 0 <= j < p.len() ==> !is_separator(#[trigger] p[j], both),
    ensures
        split_bytes_spec(p + seq![0x2fu8] + t, both) == seq![p] + split_bytes_spec(t, both),
    decreases p.len(),
{
    let s = p + seq![0x2fu8] + t;
    if p.len() == 0 {
        assert(s[0] == 0x2f);
        assert(s.drop_first() =~= t);
        assert(split_bytes_spec(s, both) =~~= seq![p] + split_bytes_spec(t, both));
    } else {
        assert(s[0] == p[0]);
        assert(s.drop_first() =~= p.drop_first() + seq![0x2fu8] + t);
        lemma_split_prefix(p.drop_first(), t, both);
        let rest = split_bytes_spec(p.drop_first() + seq![0x2fu8] + t, both);
        assert(rest == seq![p.drop_first()] + split_bytes_spec(t, both));
        assert(rest[0] == p.drop_first());
        assert(split_bytes_spec(s, both) =~~= seq![p] + split_bytes_spec(t, both));
    }
}

/// Splitting the `/`-join of separator-free pieces gives back the pieces.
pub proof fn lemma_split_of_join(ps: Seq<Seq<u8>>, both: bool)
    requires
        ps.len() >= 1,
        forall|i: int, j: int|
            0 <= i < ps.len() && 0 <= j < ps[i].len() ==> !is_separator(#[trigger] ps[i][j], both),
    ensures
        split_bytes_spec(join_slash(ps), both) == ps,
    decreases ps.len(),
{
    if ps.len() == 1 {
        lemma_split_sep_free(ps[0], both);
        assert(split_bytes_spec(join_slash(ps), both) =~~= ps);
    } else {
        assert(forall|i: int, j: int|
            0 <= i < ps.drop_first().len() && 0 <= j < ps.drop_first()[i].len()
                ==> !is_separator(#[trigger] ps.drop_first()[i][j], both));
        lemma_split_of_join(ps.drop_first(), both);
        lemma_split_prefix(ps[0], join_slash(ps.drop_first()), both);
        assert(split_bytes_spec(join_slash(ps), both) =~~= ps);
    }
}

/// The empty URL piece contributes no segments.
pub proof fn lemma_piece_segments_empty()
    ensures
        piece_segments(Seq::<u8>::empty()) == Seq::<Seq<u8>>::empty(),
{
    assert(decoded_bytes(Seq::<u8>::empty()) == Seq::<u8>::empty());
    assert(split_bytes_spec(Seq::<u8>::empty(), false) == seq![Seq::<u8>::empty()]);
    let one = seq![Seq::<u8>::empty()];
    assert(one[0].len() == 0);
    assert(one.drop_first() =~= Seq::<Seq<u8>>::empty());
    assert(nonempty_pieces(Seq::<Seq<u8>>::empty()) == Seq::<Seq<u8>>::empty());
    assert(nonempty_pieces(one) == Seq::<Seq<u8>>::empty());
}

/// A leading empty piece contributes nothing to the segments.
pub proof fn lemma_pieces_segments_skip_empty(rest: Seq<Seq<u8>>)
    ensures
        pieces_segments(seq![Seq::<u8>::empty()] + rest) == pieces_segments(rest),
{
    lemma_piece_segments_empty();
    let p = seq![Seq::<u8>::empty()] + rest;
    assert(p[0] == Seq::<u8>::empty());
    assert(p.drop_first() =~= rest);
    assert(pieces_segments(p) == piece_segments(p[0]) + pieces_segments(rest));
    assert(pieces_segments(p) =~~= pieces_segments(rest));
}

/// Decoding and re-splitting the encoded segments gives back the segments:
/// every encoded segment is one separator-free URL piece, and its lenient
/// decoding is the original bytes.
pub proof fn lemma_pieces_segments_of_encoded(segs: Seq<Seq<u8>>)
    requires
        forall|i: int| 0 <= i < segs.len() ==> wf_segment(#[trigger] segs[i]),
    ensures
        pieces_segments(encoded_segments(segs)) == segs,
    decreases segs.len(),
{
    let e = encoded_segments(segs);
    if segs.len() == 0 {
        assert(e =~= Seq::<Seq<u8>>::empty());
    } else {
        let s0 = segs[0];
        assert(e[0] == encoded_bytes(s0));
        assert(e.drop_first() =~= encoded_segments(segs.drop_first()));
        lemma_pieces_segments_of_encoded(segs.drop_first());
        crate::codec::lemma_decode_inverts_encode(s0);
        lemma_encoded_bytes_ascii(s0);
        assert(forall|j: int|
            0 <= j < encoded_bytes(s0).len() ==> !is_separator(
                #[trigger] encoded_bytes(s0)[j],
                false,
            ));
        lemma_split_sep_free(s0, false);
        assert(piece_segments(encoded_bytes(s0)) == nonempty_pieces(seq![s0]));
        assert(seq![s0][0] == s0 && s0.len() > 0);
        assert(seq![s0].drop_first() =~= Seq::<Seq<u8>>::empty());
        assert(nonempty_pieces(Seq::<Seq<u8>>::empty()) == Seq::<Seq<u8>>::empty());
        assert(nonempty_pieces(seq![s0]) == seq![s0] + nonempty_pieces(seq![s0].drop_first()));
        assert(nonempty_pieces(seq![s0]) =~~= seq![s0]);
        assert(pieces_segments(e) =~~= segs);
    }
}

/// Converting a path to a URL and back reproduces the path: the round
/// trip holds for every well-formed absolute path whose segments are free
/// of backslashes. (A backslash would pass through the encoder bare and
/// then split the URL; a relative path comes back absolute, since a file
/// URL always stands for an absolute path.)
pub proof fn lemma_path_url_roundtrip(m: PathModel)
    requires
        wf_path(m),
        m.absolute,
        forall|i: int| 0 <= i < m.segments.len() ==> backslash_free(#[trigger] m.segments[i]),
    ensures
        url_to_path_model(path_to_url_bytes(m)) == m,
{
    let e = encoded_segments(m.segments);
    let j = join_slash(e);
    let u = path_to_url_bytes(m);
    let t = seq![0x2fu8, 0x2f] + j;
    assert(forall|k: int|
        0 <= k < scheme_bytes().len() ==> !is_separator(#[trigger] scheme_bytes()[k], true));
    assert(u =~= scheme_bytes() + seq![0x2fu8] + t);
    lemma_split_prefix(scheme_bytes(), t, true);
    assert(t[0] == 0x2f);
    assert(t.drop_first() =~= seq![0x2fu8] + j);
    assert((seq![0x2fu8] + j)[0] == 0x2f);
    assert((seq![0x2fu8] + j).drop_first() =~= j);
    assert(split_bytes_spec(t, true) == seq![Seq::<u8>::empty()] + split_bytes_spec(
        seq![0x2fu8] + j,
        true,
    ));
    assert(split_bytes_spec(seq![0x2fu8] + j, true) == seq![Seq::<u8>::empty()]
        + split_bytes_spec(j, true));
    let pieces = split_bytes_spec(u, true);
    assert(pieces == seq![scheme_bytes(), Seq::<u8>::empty(), Seq::<u8>::empty()]
        + split_bytes_spec(j, true)) by {
        assert(pieces =~~= seq![scheme_bytes(), Seq::<u8>::empty(), Seq::<u8>::empty()]
            + split_bytes_spec(j, true));
    }
    assert(pieces[0] == scheme_bytes());
    lemma_piece_segments_empty();
    if m.segments.len() == 0 {
        assert(e =~= Seq::<Seq<u8>>::empty());
        assert(j == Seq::<u8>::empty());
        assert(split_bytes_spec(j, true) == seq![Seq::<u8>::empty()]);
        let rest = pieces.drop_first();
        let none = Seq::<Seq<u8>>::empty();
        let e1 = seq![Seq::<u8>::empty()] + none;
        let e2 = seq![Seq::<u8>::empty()] + e1;
        assert(rest =~= seq![Seq::<u8>::empty()] + e2);
        lemma_pieces_segments_skip_empty(e2);
        lemma_pieces_segments_skip_empty(e1);
        lemma_pieces_segments_skip_empty(none);
        assert(pieces_segments(none) == none);
        assert(pieces_segments(rest) == none);
        assert(url_to_path_model(u) =~~= m);
    } else {
        assert(e.len() >= 1);
        assert forall|i: int, k: int|
            0 <= i < e.len() && 0 <= k < e[i].len() implies !is_separator(
            #[trigger] e[i][k],
            true,
        ) by {
            assert(e[i] == encoded_bytes(m.segments[i]));
            lemma_encoded_bytes_ascii(m.segments[i]);
            crate::codec::lemma_encoded_bytes_no_backslash(m.segments[i]);
        }
        lemma_split_of_join(e, true);
        let rest = pieces.drop_first();
        let e1 = seq![Seq::<u8>::empty()] + e;
        assert(rest =~= seq![Seq::<u8>::empty()] + e1);
        lemma_pieces_segments_skip_empty(e1);
        lemma_pieces_segments_skip_empty(e);
        assert(pieces_segments(rest) == pieces_segments(e));
        lemma_pieces_segments_of_encoded(m.segments);
        assert(url_to_path_model(u) =~~= m);
    }
}

/// A drive token such as `c:` passes through the encoder unchanged, so
/// it appears verbatim in the URL immediately after `file:///`.
pub proof fn lemma_drive_token_passthrough(m: PathModel)
    requires
        m.segments.len() > 0,
        is_drive_token(m.segments[0]),
    ensures
        encoded_bytes(m.segments[0]) == m.segments[0],
        path_to_url_bytes(m).subrange(8, 10) == m.segments[0],
{
    let seg = m.segments[0];
    assert(!crate::reserved::is_escaped_byte(seg[0]));
    assert(!crate::reserved::is_escaped_byte(seg[1]));
    assert(forall|i: int| 0 <= i < seg.len() ==> !crate::reserved::is_escaped_byte(#[trigger] seg[i]));
    crate::codec::lemma_encode_unescaped_identity(seg);
    let e = encoded_segments(m.segments);
    assert(e[0] == encoded_bytes(seg));
    let j = join_slash(e);
    if e.len() == 1 {
        assert(j == seg);
        assert(path_to_url_bytes(m).subrange(8, 10) =~= seg);
    } else {
        assert(j == seg + seq![0x2fu8] + join_slash(e.drop_first()));
        assert(path_to_url_bytes(m).subrange(8, 10) =~= seg);
    }
}

impl PathFromFileUrlExt for FilePath {
    fn from_file_url(file_url: &str) -> (r: Self) {
        file_url_to_pathbuf(file_url)
    }
}

} // verus!
