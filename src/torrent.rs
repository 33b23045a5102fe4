use crate::bencode::{
    encode_bencoded_value, encoding, entries_well_formed, items_view, items_well_formed, keys_unique,
    lemma_entries_view, lemma_items_view_push, lemma_round_trip, well_formed, MAX_DEPTH,
    decode_bencoded_value, lemma_view_unfold, decoding, entries_view, lookup, lookup_key, Bencode, BencodeValue,
};
use crate::error::BittorrentError;
use crate::peer::take_array;
use sha1::Digest;
use vstd::prelude::*;
use vstd::utf8::{decode_utf8, encode_utf8, valid_utf8};

verus! {

pub open spec fn announce_key() -> Seq<u8> {
    seq![97u8, 110, 110, 111, 117, 110, 99, 101]
}

pub open spec fn info_key() -> Seq<u8> {
    seq![105u8, 110, 102, 111]
}

pub open spec fn name_key() -> Seq<u8> {
    seq![110u8, 97, 109, 101]
}

pub open spec fn piece_length_key() -> Seq<u8> {
    seq![112u8, 105, 101, 99, 101, 32, 108, 101, 110, 103, 116, 104]
}

pub open spec fn pieces_key() -> Seq<u8> {
    seq![112u8, 105, 101, 99, 101, 115]
}

pub open spec fn length_key() -> Seq<u8> {
    seq![108u8, 101, 110, 103, 116, 104]
}

pub open spec fn files_key() -> Seq<u8> {
    seq![102u8, 105, 108, 101, 115]
}

pub open spec fn path_key() -> Seq<u8> {
    seq![112u8, 97, 116, 104]
}

/// Relies on `String::from_utf8`: it accepts exactly the valid UTF-8 byte
/// sequences and keeps the characters they encode.
#[verifier::external_body]
fn text_from_utf8(b: Vec<u8>) -> (r: Option<String>)
    ensures
        match r {
            Some(s) => valid_utf8(b@) && s@ == decode_utf8(b@),
            None => !valid_utf8(b@),
        },
{
    String::from_utf8(b).ok()
}

/// The 20-byte SHA-1 digest of some bytes.
pub uninterp spec fn sha1_digest(data: Seq<u8>) -> Seq<u8>;

/// Relies on `sha1::Sha1::digest`: the SHA-1 digest of the bytes.
#[verifier::external_body]
pub(crate) fn sha1(data: &[u8]) -> (r: [u8; 20])
    ensures
        r@ == sha1_digest(data@),
{
    sha1::Sha1::digest(data).into()
}

/// The SHA-1 digests of the pieces, one per piece, in order.
pub struct Hashes(pub Vec<[u8; 20]>);

/// The digests one after another, as the `pieces` byte string holds them.
pub open spec fn hashes_bytes(h: Seq<[u8; 20]>) -> Seq<u8>
    decreases h.len(),
{
    if h.len() == 0 {
        Seq::empty()
    } else {
        hashes_bytes(h.drop_last()) + h.last()@
    }
}

/// One file of a multi-file torrent.
pub struct File {
    /// The length of the file in bytes.
    pub length: usize,
    /// Subdirectory names, the last of which is the file's name.
    pub path: Vec<String>,
}

/// Whether the download is one file or several.
pub enum Keys {
    SingleFile { length: usize },
    MultiFile { files: Vec<File> },
}

/// The `info` dictionary of a metainfo file.
pub struct Info {
    /// Suggested name to save the file or directory as; advisory.
    pub name: String,
    /// Number of bytes in each piece; the last piece may be shorter.
    pub piece_length: usize,
    /// The digest of each piece.
    pub pieces: Hashes,
    pub keys: Keys,
}

/// A metainfo (.torrent) file.
pub struct Torrent {
    /// The URL of the tracker.
    pub announce: String,
    pub info: Info,
}

/// A length that a metainfo document may hold: an integer from 0 to the
/// largest signed 64-bit one.
pub open spec fn size_of(v: Option<Bencode>) -> Option<int> {
    match v {
        Some(Bencode::Int(n)) => if 0 <= n <= i64::MAX && n <= usize::MAX {
            Some(n)
        } else {
            None
        },
        _ => None,
    }
}

/// Text that a metainfo document may hold: a UTF-8 byte string.
pub open spec fn text_of(v: Option<Bencode>) -> Option<Seq<char>> {
    match v {
        Some(Bencode::Bytes(b)) => if valid_utf8(b) {
            Some(decode_utf8(b))
        } else {
            None
        },
        _ => None,
    }
}

/// The `path` list of a file entry: all UTF-8 byte strings.
pub open spec fn path_valid(v: Option<Bencode>) -> bool {
    match v {
        Some(Bencode::List(segs)) => forall|j: int|
            0 <= j < segs.len() ==> text_of(Some(#[trigger] segs[j])) is Some,
        _ => false,
    }
}

pub open spec fn file_valid(v: Bencode) -> bool {
    match v {
        Bencode::Dict(d) => size_of(lookup(d, length_key())) is Some && path_valid(
            lookup(d, path_key()),
        ),
        _ => false,
    }
}

/// What an `info` dictionary must hold: a name, a positive piece length, a
/// `pieces` string whose length is a multiple of 20, and either a `length`
/// or a list of valid `files`, not both.
pub open spec fn info_valid(v: Bencode) -> bool {
    match v {
        Bencode::Dict(d) => {
            &&& text_of(lookup(d, name_key())) is Some
            &&& size_of(lookup(d, piece_length_key())) is Some
            &&& size_of(lookup(d, piece_length_key()))->0 > 0
            &&& lookup(d, pieces_key()) matches Some(Bencode::Bytes(p)) && p.len() % 20 == 0
            &&& match (lookup(d, length_key()), lookup(d, files_key())) {
                (Some(_), None) => size_of(lookup(d, length_key())) is Some,
                (None, Some(Bencode::List(items))) => forall|k: int|
                    0 <= k < items.len() ==> file_valid(#[trigger] items[k]),
                _ => false,
            }
        },
        _ => false,
    }
}

/// What a metainfo document must hold: an announce URL and a valid `info`.
pub open spec fn torrent_valid(v: Bencode) -> bool {
    match v {
        Bencode::Dict(d) => text_of(lookup(d, announce_key())) is Some && (lookup(
            d,
            info_key(),
        ) matches Some(i) && info_valid(i)),
        _ => false,
    }
}

/// A file entry holds the length and path of `f`.
pub open spec fn file_fits(v: Bencode, f: File) -> bool {
    &&& v is Dict
    &&& size_of(lookup(v->Dict_0, length_key())) == Some(f.length as int)
    &&& lookup(v->Dict_0, path_key()) matches Some(Bencode::List(segs))
    &&& segs.len() == f.path@.len()
    &&& forall|j: int| 0 <= j < segs.len() ==> text_of(Some(#[trigger] segs[j])) == Some(f.path@[j]@)
}

/// An `info` dictionary holds the fields of `i`.
pub open spec fn info_fits(v: Bencode, i: Info) -> bool {
    &&& v is Dict
    &&& text_of(lookup(v->Dict_0, name_key())) == Some(i.name@)
    &&& size_of(lookup(v->Dict_0, piece_length_key())) == Some(i.piece_length as int)
    &&& lookup(v->Dict_0, pieces_key()) == Some(Bencode::Bytes(hashes_bytes(i.pieces.0@)))
    &&& match i.keys {
        Keys::SingleFile { length } => size_of(lookup(v->Dict_0, length_key())) == Some(
            length as int,
        ),
        Keys::MultiFile { files } => {
            &&& lookup(v->Dict_0, length_key()) is None
            &&& lookup(v->Dict_0, files_key()) matches Some(Bencode::List(items))
            &&& items.len() == files@.len()
            &&& forall|k: int| 0 <= k < items.len() ==> file_fits(#[trigger] items[k], files@[k])
        },
    }
}

/// A metainfo document holds the fields of `t`.
pub open spec fn torrent_fits(v: Bencode, t: Torrent) -> bool {
    &&& v is Dict
    &&& text_of(lookup(v->Dict_0, announce_key())) == Some(t.announce@)
    &&& lookup(v->Dict_0, info_key()) matches Some(i) && info_fits(i, t.info)
}

impl Info {
    /// Lengths fit in 64 signed bits and the piece length is positive.
    pub open spec fn wf(&self) -> bool {
        &&& 0 < self.piece_length <= i64::MAX
        &&& match self.keys {
            Keys::SingleFile { length } => length <= i64::MAX,
            Keys::MultiFile { files } => forall|k: int|
                0 <= k < files@.len() ==> #[trigger] files@[k].length <= i64::MAX,
        }
    }
}

/// The model of a value that may be absent.
pub open spec fn opt_view(v: Option<&BencodeValue>) -> Option<Bencode> {
    match v {
        Some(x) => Some(x@),
        None => None,
    }
}

pub(crate) fn size_value(v: Option<&BencodeValue>) -> (r: Option<usize>)
    ensures
        match r {
            Some(n) => size_of(opt_view(v)) == Some(n as int),
            None => size_of(opt_view(v)) is None,
        },
{
    match v {
        Some(BencodeValue::Integer(n)) => {
            if *n >= 0 && (*n as u64) <= (usize::MAX as u64) {
                Some(*n as usize)
            } else {
                None
            }
        },
        _ => None,
    }
}

fn text_value(v: Option<&BencodeValue>) -> (r: Option<String>)
    ensures
        match r {
            Some(s) => text_of(opt_view(v)) == Some(s@),
            None => text_of(opt_view(v)) is None,
        },
{
    match v {
        Some(BencodeValue::ByteString(b)) => text_from_utf8(vstd::slice::slice_to_vec(b.as_slice())),
        _ => None,
    }
}

fn parse_hashes(b: &[u8]) -> (r: Option<Hashes>)
    ensures
        match r {
            Some(h) => hashes_bytes(h.0@) == b@ && b@.len() % 20 == 0,
            None => b@.len() % 20 != 0,
        },
{
    if b.len() % 20 != 0 {
        return None;
    }
    let mut out: Vec<[u8; 20]> = Vec::new();
    let mut i: usize = 0;
    let n = b.len() / 20;
    assert(b@.subrange(0, 0) =~= Seq::<u8>::empty());
    while i < n
        invariant
            n == b.len() / 20,
            b.len() % 20 == 0,
            0 <= i <= n,
            hashes_bytes(out@) == b@.subrange(0, 20 * i),
        decreases n - i,
    {
        let chunk: [u8; 20] = take_array(b, 20 * i);
        proof {
            assert(out@.push(chunk).drop_last() =~= out@);
            assert(b@.subrange(0, 20 * (i + 1)) =~= b@.subrange(0, 20 * i) + chunk@);
        }
        out.push(chunk);
        i = i + 1;
    }
    assert(b@.subrange(0, 20 * n) =~= b@);
    Some(Hashes(out))
}

#[verifier::loop_isolation(false)]
fn parse_path(v: Option<&BencodeValue>) -> (r: Option<Vec<String>>)
    ensures
        match r {
            Some(p) => opt_view(v) matches Some(Bencode::List(segs)) && segs.len() == p@.len()
                && forall|j: int|
                0 <= j < segs.len() ==> text_of(Some(#[trigger] segs[j])) == Some(p@[j]@),
            None => !path_valid(opt_view(v)),
        },
{
    let x = match v {
        Some(x) => x,
        None => {
            return None;
        },
    };
    match x {
        BencodeValue::List(items) => {
            proof {
                lemma_view_unfold(*x);
            }
            let mut out: Vec<String> = Vec::new();
            let mut j: usize = 0;
            while j < items.len()
                invariant
                    0 <= j <= items.len(),
                    out@.len() == j,
                    *x == BencodeValue::List(*items),
                    x@ is List,
                    x@->List_0.len() == items.len(),
                    forall|k: int| 0 <= k < items.len() ==> #[trigger] x@->List_0[k] == items[k]@,
                    forall|k: int|
                        0 <= k < j ==> text_of(Some(#[trigger] x@->List_0[k])) == Some(out@[k]@),
                decreases items.len() - j,
            {
                match text_value(Some(&items[j])) {
                    Some(s) => {
                        out.push(s);
                    },
                    None => {
                        assert(text_of(Some(x@->List_0[j as int])) is None);
                        return None;
                    },
                }
                j = j + 1;
            }
            Some(out)
        },
        _ => None,
    }
}

fn parse_file(v: &BencodeValue) -> (r: Option<File>)
    ensures
        match r {
            Some(f) => file_valid(v@) && file_fits(v@, f) && f.length <= i64::MAX,
            None => !file_valid(v@),
        },
{
    match v {
        BencodeValue::Dictionary(d) => {
            let length_k: [u8; 6] = [108u8, 101, 110, 103, 116, 104];
            let path_k: [u8; 4] = [112u8, 97, 116, 104];
            assert(length_k@ =~= length_key());
            assert(path_k@ =~= path_key());
            let length = match size_value(lookup_key(d, length_k.as_slice())) {
                Some(n) => n,
                None => {
                    return None;
                },
            };
            let path = match parse_path(lookup_key(d, path_k.as_slice())) {
                Some(p) => p,
                None => {
                    return None;
                },
            };
            Some(File { length, path })
        },
        _ => None,
    }
}

#[verifier::loop_isolation(false)]
fn parse_info(v: &BencodeValue) -> (r: Option<Info>)
    ensures
        match r {
            Some(i) => info_valid(v@) && info_fits(v@, i) && i.wf(),
            None => !info_valid(v@),
        },
{
    let d = match v {
        BencodeValue::Dictionary(d) => d,
        _ => {
            return None;
        },
    };
    let name_k: [u8; 4] = [110u8, 97, 109, 101];
    let piece_length_k: [u8; 12] = [112u8, 105, 101, 99, 101, 32, 108, 101, 110, 103, 116, 104];
    let pieces_k: [u8; 6] = [112u8, 105, 101, 99, 101, 115];
    let length_k: [u8; 6] = [108u8, 101, 110, 103, 116, 104];
    let files_k: [u8; 5] = [102u8, 105, 108, 101, 115];
    assert(name_k@ =~= name_key());
    assert(piece_length_k@ =~= piece_length_key());
    assert(pieces_k@ =~= pieces_key());
    assert(length_k@ =~= length_key());
    assert(files_k@ =~= files_key());
    let name = match text_value(lookup_key(d, name_k.as_slice())) {
        Some(s) => s,
        None => {
            return None;
        },
    };
    let piece_length = match size_value(lookup_key(d, piece_length_k.as_slice())) {
        Some(n) => n,
        None => {
            return None;
        },
    };
    if piece_length == 0 {
        return None;
    }
    let pieces = match lookup_key(d, pieces_k.as_slice()) {
        Some(BencodeValue::ByteString(b)) => match parse_hashes(b.as_slice()) {
            Some(h) => h,
            None => {
                return None;
            },
        },
        _ => {
            return None;
        },
    };
    let length_v = lookup_key(d, length_k.as_slice());
    let files_v = lookup_key(d, files_k.as_slice());
    let keys = match (length_v, files_v) {
        (Some(_), None) => match size_value(length_v) {
            Some(n) => {
                Keys::SingleFile { length: n }
            },
            None => {
                return None;
            },
        },
        (None, Some(fv)) => {
            let items = match fv {
                BencodeValue::List(items) => items,
                _ => {
                    return None;
                },
            };
            proof {
                lemma_view_unfold(*fv);
            }
            let mut files: Vec<File> = Vec::new();
            let mut k: usize = 0;
            while k < items.len()
                invariant
                    0 <= k <= items.len(),
                    files@.len() == k,
                    *fv == BencodeValue::List(*items),
                    fv@ is List,
                    fv@->List_0.len() == items.len(),
                    forall|j: int| 0 <= j < items.len() ==> #[trigger] fv@->List_0[j] == items[j]@,
                    forall|j: int| 0 <= j < k ==> file_valid(#[trigger] fv@->List_0[j]),
                    forall|j: int|
                        0 <= j < k ==> #[trigger] file_fits(fv@->List_0[j], files@[j]),
                    forall|j: int| 0 <= j < k ==> #[trigger] files@[j].length <= i64::MAX,
                decreases items.len() - k,
            {
                match parse_file(&items[k]) {
                    Some(f) => {
                        files.push(f);
                    },
                    None => {
                        assert(!file_valid(fv@->List_0[k as int]));
                        return None;
                    },
                }
                k = k + 1;
            }
            assert(forall|j: int| 0 <= j < files@.len() ==> #[trigger] files@[j].length <= i64::MAX);
            Keys::MultiFile { files }
        },
        _ => {
            return None;
        },
    };
    Some(Info { name, piece_length, pieces, keys })
}

impl Torrent {
    /// Reads a metainfo file: the whole input must be one bencode value
    /// (else a decode error), a dictionary with a UTF-8 `announce` and a
    /// valid `info` dictionary (else a validation error).
    pub fn from_bytes(raw: &[u8]) -> (r: Result<Torrent, BittorrentError>)
        ensures
            match r {
                Ok(t) => decoding(raw@) matches Some((v, n)) && n == raw@.len() && torrent_valid(v)
                    && torrent_fits(v, t) && t.info.wf(),
                Err(BittorrentError::DecodeError) => !(decoding(raw@) matches Some((v, n)) && n
                    == raw@.len()),
                Err(BittorrentError::ValidationError) => decoding(raw@) matches Some((v, n)) && n
                    == raw@.len() && !torrent_valid(v),
                Err(_) => false,
            },
    {
        let v = match decode_bencoded_value(raw) {
            Ok((v, rest)) => {
                if rest.len() != 0 {
                    return Err(BittorrentError::DecodeError);
                }
                v
            },
            Err(_) => {
                return Err(BittorrentError::DecodeError);
            },
        };
        let d = match &v {
            BencodeValue::Dictionary(d) => d,
            _ => {
                return Err(BittorrentError::ValidationError);
            },
        };
        let announce_k: [u8; 8] = [97u8, 110, 110, 111, 117, 110, 99, 101];
        let info_k: [u8; 4] = [105u8, 110, 102, 111];
        assert(announce_k@ =~= announce_key());
        assert(info_k@ =~= info_key());
        let announce = match text_value(lookup_key(d, announce_k.as_slice())) {
            Some(s) => s,
            None => {
                return Err(BittorrentError::ValidationError);
            },
        };
        let info = match lookup_key(d, info_k.as_slice()) {
            Some(iv) => match parse_info(iv) {
                Some(i) => i,
                None => {
                    return Err(BittorrentError::ValidationError);
                },
            },
            None => {
                return Err(BittorrentError::ValidationError);
            },
        };
        Ok(Torrent { announce, info })
    }
}


/// Text as bencode holds it: its UTF-8 bytes.
pub open spec fn text_model(s: Seq<char>) -> Bencode {
    Bencode::Bytes(encode_utf8(s))
}

/// A file's `path` list.
pub open spec fn path_model(path: Seq<String>) -> Bencode {
    Bencode::List(Seq::new(path.len(), |j: int| text_model(path[j]@)))
}

/// A file entry: `length`, then `path`.
pub open spec fn file_model(f: File) -> Bencode {
    Bencode::Dict(
        seq![(length_key(), Bencode::Int(f.length as int)), (path_key(), path_model(f.path@))],
    )
}

/// The canonical `info` dictionary of an `Info`: `name`, `piece length`,
/// `pieces`, then `length` or `files`.
pub open spec fn info_model(i: Info) -> Bencode {
    Bencode::Dict(
        seq![
            (name_key(), text_model(i.name@)),
            (piece_length_key(), Bencode::Int(i.piece_length as int)),
            (pieces_key(), Bencode::Bytes(hashes_bytes(i.pieces.0@))),
        ] + match i.keys {
            Keys::SingleFile { length } => seq![(length_key(), Bencode::Int(length as int))],
            Keys::MultiFile { files } => seq![
                (
                    files_key(),
                    Bencode::List(Seq::new(files@.len(), |k: int| file_model(files@[k]))),
                ),
            ],
        },
    )
}

proof fn lemma_files_total_monotone(files: Seq<File>, k: int)
    requires
        0 <= k <= files.len(),
    ensures
        files_total(files.take(k)) <= files_total(files),
    decreases files.len() - k,
{
    if k < files.len() {
        lemma_files_total_monotone(files, k + 1);
        assert(files.take(k + 1).drop_last() =~= files.take(k));
    } else {
        assert(files.take(k) =~= files);
    }
}

fn text_bytes(s: &String) -> (r: Vec<u8>)
    ensures
        r@ == encode_utf8(s@),
{
    vstd::slice::slice_to_vec(s.as_str().as_bytes())
}

fn hashes_to_bytes(h: &Vec<[u8; 20]>) -> (r: Vec<u8>)
    ensures
        r@ == hashes_bytes(h@),
{
    let mut out: Vec<u8> = Vec::new();
    let mut i: usize = 0;
    assert(h@.take(0) =~= Seq::<[u8; 20]>::empty());
    while i < h.len()
        invariant
            0 <= i <= h.len(),
            out@ == hashes_bytes(h@.take(i as int)),
        decreases h.len() - i,
    {
        out.extend_from_slice(h[i].as_slice());
        assert(h@.take(i + 1).drop_last() =~= h@.take(i as int));
        i = i + 1;
    }
    assert(h@.take(h.len() as int) =~= h@);
    out
}

fn path_value(path: &Vec<String>) -> (r: BencodeValue)
    ensures
        r@ == path_model(path@),
{
    let mut items: Vec<BencodeValue> = Vec::new();
    let mut j: usize = 0;
    assert(items_view(items@) =~= Seq::new(0, |k: int| text_model(path@[k]@)));
    while j < path.len()
        invariant
            0 <= j <= path.len(),
            items_view(items@) == Seq::new(j as nat, |k: int| text_model(path@[k]@)),
        decreases path.len() - j,
    {
        let b = BencodeValue::ByteString(text_bytes(&path[j]));
        proof {
            lemma_items_view_push(items@, b);
        }
        items.push(b);
        j = j + 1;
        assert(items_view(items@) =~= Seq::new(j as nat, |k: int| text_model(path@[k]@)));
    }
    let r = BencodeValue::List(items);
    assert(r@ =~= path_model(path@));
    r
}

fn file_value(f: &File) -> (r: BencodeValue)
    requires
        f.length <= i64::MAX,
    ensures
        r@ == file_model(*f),
{
    let length_k: [u8; 6] = [108u8, 101, 110, 103, 116, 104];
    let path_k: [u8; 4] = [112u8, 97, 116, 104];
    let entries = vec![
        (vstd::slice::slice_to_vec(length_k.as_slice()), BencodeValue::Integer(f.length as i64)),
        (vstd::slice::slice_to_vec(path_k.as_slice()), path_value(&f.path)),
    ];
    proof {
        lemma_entries_view(entries@);
        assert(entries_view(entries@) =~= file_model(*f)->Dict_0);
    }
    BencodeValue::Dictionary(entries)
}

/// The sum of the lengths of some files.
pub open spec fn files_total(files: Seq<File>) -> nat
    decreases files.len(),
{
    if files.len() == 0 {
        0
    } else {
        files_total(files.drop_last()) + files.last().length as nat
    }
}

/// The length of the whole content: the single file's, or the sum over all
/// files.
pub open spec fn total_length_of(i: Info) -> nat {
    match i.keys {
        Keys::SingleFile { length } => length as nat,
        Keys::MultiFile { files } => files_total(files@),
    }
}

impl Info {
    /// The length of the whole content, if it fits in 64 bits.
    #[verifier::loop_isolation(false)]
    pub fn total_length(&self) -> (r: Option<u64>)
        ensures
            match r {
                Some(n) => n == total_length_of(*self),
                None => total_length_of(*self) > u64::MAX,
            },
    {
        match &self.keys {
            Keys::SingleFile { length } => Some(*length as u64),
            Keys::MultiFile { files } => {
                let mut sum: u64 = 0;
                let mut k: usize = 0;
                assert(files@.take(0) =~= Seq::<File>::empty());
                while k < files.len()
                    invariant
                        0 <= k <= files.len(),
                        sum == files_total(files@.take(k as int)),
                    decreases files.len() - k,
                {
                    assert(files@.take(k + 1).drop_last() =~= files@.take(k as int));
                    let len = files[k].length as u64;
                    if sum > u64::MAX - len {
                        proof {
                            lemma_files_total_monotone(files@, k + 1);
                            assert(files_total(files@.take(k + 1)) == sum + len);
                            assert(total_length_of(*self) == files_total(files@));
                        }
                        return None;
                    }
                    sum = sum + len;
                    k = k + 1;
                }
                assert(files@.take(files.len() as int) =~= files@);
                Some(sum)
            },
        }
    }

    /// The canonical `info` value of this `Info`.
    pub fn to_bencode(&self) -> (r: BencodeValue)
        requires
            self.wf(),
        ensures
            r@ == info_model(*self),
    {
        let name_k: [u8; 4] = [110u8, 97, 109, 101];
        let piece_length_k: [u8; 12] = [112u8, 105, 101, 99, 101, 32, 108, 101, 110, 103, 116, 104];
        let pieces_k: [u8; 6] = [112u8, 105, 101, 99, 101, 115];
        let mut entries = vec![
            (vstd::slice::slice_to_vec(name_k.as_slice()), BencodeValue::ByteString(text_bytes(&self.name))),
            (
                vstd::slice::slice_to_vec(piece_length_k.as_slice()),
                BencodeValue::Integer(self.piece_length as i64),
            ),
            (
                vstd::slice::slice_to_vec(pieces_k.as_slice()),
                BencodeValue::ByteString(hashes_to_bytes(&self.pieces.0)),
            ),
        ];
        match &self.keys {
            Keys::SingleFile { length } => {
                let length_k: [u8; 6] = [108u8, 101, 110, 103, 116, 104];
                entries.push(
                    (vstd::slice::slice_to_vec(length_k.as_slice()), BencodeValue::Integer(*length as i64)),
                );
            },
            Keys::MultiFile { files } => {
                let mut items: Vec<BencodeValue> = Vec::new();
                let mut k: usize = 0;
                assert(items_view(items@) =~= Seq::new(0, |x: int| file_model(files@[x])));
                while k < files.len()
                    invariant
                        0 <= k <= files.len(),
                        forall|x: int| 0 <= x < files@.len() ==> #[trigger] files@[x].length <= i64::MAX,
                        items_view(items@) == Seq::new(k as nat, |x: int| file_model(files@[x])),
                    decreases files.len() - k,
                {
                    let fv = file_value(&files[k]);
                    proof {
                        lemma_items_view_push(items@, fv);
                    }
                    items.push(fv);
                    k = k + 1;
                    assert(items_view(items@) =~= Seq::new(k as nat, |x: int| file_model(files@[x])));
                }
                let files_k: [u8; 5] = [102u8, 105, 108, 101, 115];
                entries.push((vstd::slice::slice_to_vec(files_k.as_slice()), BencodeValue::List(items)));
            },
        }
        proof {
            lemma_entries_view(entries@);
            assert(entries_view(entries@) =~= info_model(*self)->Dict_0);
        }
        BencodeValue::Dictionary(entries)
    }

    /// The SHA-1 digest of the canonical encoding of this `Info`.
    pub fn hash(&self) -> (r: [u8; 20])
        requires
            self.wf(),
        ensures
            r@ == sha1_digest(encoding(info_model(*self))),
    {
        let encoded = encode_bencoded_value(&self.to_bencode());
        sha1(encoded.as_slice())
    }
}

impl Torrent {
    /// The info-hash: the SHA-1 digest of the canonical encoding of `info`.
    pub fn info_hash(&self) -> (r: [u8; 20])
        requires
            self.info.wf(),
        ensures
            r@ == sha1_digest(encoding(info_model(self.info))),
    {
        self.info.hash()
    }
}


proof fn lemma_items_wf(items: Seq<Bencode>, depth: nat)
    requires
        forall|k: int| 0 <= k < items.len() ==> well_formed(#[trigger] items[k], depth),
    ensures
        items_well_formed(items, depth),
    decreases items.len(),
{
    if items.len() > 0 {
        let tail = items.subrange(1, items.len() as int);
        assert forall|k: int| 0 <= k < tail.len() implies well_formed(#[trigger] tail[k], depth) by {
            assert(tail[k] == items[k + 1]);
        }
        lemma_items_wf(tail, depth);
    }
}

proof fn lemma_entries_wf(entries: Seq<(Seq<u8>, Bencode)>, depth: nat)
    requires
        forall|k: int| 0 <= k < entries.len() ==> well_formed(#[trigger] entries[k].1, depth),
    ensures
        entries_well_formed(entries, depth),
    decreases entries.len(),
{
    if entries.len() > 0 {
        let tail = entries.subrange(1, entries.len() as int);
        assert forall|k: int| 0 <= k < tail.len() implies well_formed(#[trigger] tail[k].1, depth) by {
            assert(tail[k] == entries[k + 1]);
        }
        lemma_entries_wf(tail, depth);
    }
}

proof fn lemma_file_model_wf(f: File, depth: nat)
    requires
        f.length <= i64::MAX,
        depth >= 2,
    ensures
        well_formed(file_model(f), depth),
{
    let path = path_model(f.path@);
    let items = path->List_0;
    assert forall|k: int| 0 <= k < items.len() implies well_formed(
        #[trigger] items[k],
        (depth - 2) as nat,
    ) by {}
    lemma_items_wf(items, (depth - 2) as nat);
    let entries = file_model(f)->Dict_0;
    assert(length_key() != path_key()) by {
        assert(length_key().len() != path_key().len());
    }
    lemma_entries_wf(entries, (depth - 1) as nat);
}

proof fn lemma_info_keys_distinct()
    ensures
        name_key() != piece_length_key(),
        name_key() != pieces_key(),
        name_key() != length_key(),
        name_key() != files_key(),
        piece_length_key() != pieces_key(),
        piece_length_key() != length_key(),
        piece_length_key() != files_key(),
        pieces_key() != length_key(),
        pieces_key() != files_key(),
        length_key() != files_key(),
{
    assert(name_key() != piece_length_key()) by {
        assert(name_key().len() != piece_length_key().len());
    }
    assert(name_key() != pieces_key()) by {
        assert(name_key().len() != pieces_key().len());
    }
    assert(name_key() != length_key()) by {
        assert(name_key().len() != length_key().len());
    }
    assert(name_key() != files_key()) by {
        assert(name_key().len() != files_key().len());
    }
    assert(piece_length_key() != pieces_key()) by {
        assert(piece_length_key().len() != pieces_key().len());
    }
    assert(piece_length_key() != length_key()) by {
        assert(piece_length_key().len() != length_key().len());
    }
    assert(piece_length_key() != files_key()) by {
        assert(piece_length_key().len() != files_key().len());
    }
    assert(pieces_key() != length_key()) by {
        assert(pieces_key()[0] != length_key()[0]);
    }
    assert(pieces_key() != files_key()) by {
        assert(pieces_key().len() != files_key().len());
    }
    assert(length_key() != files_key()) by {
        assert(length_key().len() != files_key().len());
    }
}

/// The canonical encoding of a valid `Info` decodes back to its canonical
/// value, all of it: re-encoding and re-hashing a decoded `Info` gives the
/// same digest every time.
pub proof fn lemma_info_reencoding_stable(i: Info)
    requires
        i.wf(),
    ensures
        decoding(encoding(info_model(i))) == Some(
            (info_model(i), encoding(info_model(i)).len() as int),
        ),
{
    let v = info_model(i);
    let entries = v->Dict_0;
    let d = (MAX_DEPTH - 1) as nat;
    if let Keys::MultiFile { files } = i.keys {
        let fl = Seq::new(files@.len(), |k: int| file_model(files@[k]));
        assert forall|k: int| 0 <= k < fl.len() implies well_formed(#[trigger] fl[k], (d - 1) as nat) by {
            lemma_file_model_wf(files@[k], (d - 1) as nat);
        }
        lemma_items_wf(fl, (d - 1) as nat);
    }
    assert forall|k: int| 0 <= k < entries.len() implies well_formed(#[trigger] entries[k].1, d) by {}
    lemma_entries_wf(entries, d);
    lemma_info_keys_distinct();
    assert(keys_unique(entries));
    assert(well_formed(v, MAX_DEPTH as nat));
    lemma_round_trip(v);
}


/// A file entry laid out as this library writes one: `length`, then `path`.
pub open spec fn canonical_file_layout(v: Bencode) -> bool {
    &&& v is Dict
    &&& v->Dict_0.len() == 2
    &&& v->Dict_0[0].0 == length_key()
    &&& v->Dict_0[1].0 == path_key()
}

/// An `info` dictionary laid out as this library writes one: `name`,
/// `piece length`, `pieces`, then `length`, or `files` with every entry laid
/// out canonically.
pub open spec fn canonical_info_layout(v: Bencode) -> bool {
    &&& v is Dict
    &&& v->Dict_0.len() == 4
    &&& v->Dict_0[0].0 == name_key()
    &&& v->Dict_0[1].0 == piece_length_key()
    &&& v->Dict_0[2].0 == pieces_key()
    &&& v->Dict_0[3].0 == length_key() || {
        &&& v->Dict_0[3].0 == files_key()
        &&& v->Dict_0[3].1 is List
        &&& forall|k: int|
            0 <= k < v->Dict_0[3].1->List_0.len() ==> canonical_file_layout(
                #[trigger] v->Dict_0[3].1->List_0[k],
            )
    }
}

proof fn lemma_canonical_file(v: Bencode, f: File)
    requires
        file_fits(v, f),
        canonical_file_layout(v),
    ensures
        file_model(f) == v,
{
    reveal_with_fuel(lookup, 3);
    assert(length_key() != path_key()) by {
        assert(length_key().len() != path_key().len());
    }
    let d = v->Dict_0;
    assert(d.subrange(1, 2)[0] == d[1]);
    assert(lookup(d, length_key()) == Some(d[0].1));
    assert(lookup(d, path_key()) == Some(d[1].1));
    let segs = d[1].1->List_0;
    let pm = path_model(f.path@)->List_0;
    assert forall|j: int| 0 <= j < segs.len() implies pm[j] == segs[j] by {
        assert(text_of(Some(segs[j])) == Some(f.path@[j]@));
        vstd::utf8::decode_utf8_encode_utf8(segs[j]->Bytes_0);
    }
    assert(pm =~= segs);
    assert(file_model(f)->Dict_0 =~= d);
}

/// An `info` dictionary laid out canonically is the canonical value of any
/// `Info` read from it; so the info-hash digests the encoding of that very
/// dictionary.
pub proof fn lemma_canonical_info(v: Bencode, i: Info)
    requires
        info_fits(v, i),
        canonical_info_layout(v),
    ensures
        info_model(i) == v,
{
    reveal_with_fuel(lookup, 5);
    lemma_info_keys_distinct();
    let d = v->Dict_0;
    let d1 = d.subrange(1, 4);
    let d2 = d1.subrange(1, 3);
    let d3 = d2.subrange(1, 2);
    assert(d1[0] == d[1] && d2[0] == d[2] && d3[0] == d[3]);
    assert(lookup(d, name_key()) == Some(d[0].1));
    assert(lookup(d, piece_length_key()) == Some(d[1].1));
    assert(lookup(d, pieces_key()) == Some(d[2].1));
    vstd::utf8::decode_utf8_encode_utf8(d[0].1->Bytes_0);
    if d[3].0 == length_key() {
        assert(lookup(d, length_key()) == Some(d[3].1));
    } else {
        assert(lookup(d, length_key()) is None);
        assert(lookup(d, files_key()) == Some(d[3].1));
        if let Keys::MultiFile { files } = i.keys {
            let items = d[3].1->List_0;
            let fl = Seq::new(files@.len(), |k: int| file_model(files@[k]));
            assert forall|k: int| 0 <= k < items.len() implies fl[k] == items[k] by {
                lemma_canonical_file(items[k], files@[k]);
            }
            assert(fl =~= items);
        }
    }
    assert(info_model(i)->Dict_0 =~= d);
}

} // verus!
