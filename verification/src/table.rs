//! The runtime table: read-only access to the embedded key-to-payload
//! mapping, with decompression on demand.

use crate::codec::Compression;
use crate::codec::FilesError;
use crate::codec::copy_bytes;
use crate::codec::decode_payload;
use crate::codec::decode_spec;
use crate::items::Item;
use crate::items::find_index;
use crate::items::item_map;
use crate::items::lemma_item_map_index;
use crate::items::lemma_item_map_key;
use crate::items::store;
use crate::items::uniq_keys;
use crate::keys::as_key;
use crate::keys::norm_key;
use vstd::prelude::*;

verus! {

/// Runtime access to the included files: an immutable mapping from
/// slash-normalized key to a compression tag and the stored payload bytes.
pub struct Files {
    entries: Vec<Item>,
}

impl View for Files {
    type V = Map<Seq<char>, (Compression, Seq<u8>)>;

    closed spec fn view(&self) -> Map<Seq<char>, (Compression, Seq<u8>)> {
        Map::new(
            |k: Seq<char>| item_map(self.entries@).contains_key(k),
            |k: Seq<char>|
                (item_map(self.entries@)[k].compression, item_map(self.entries@)[k].payload),
        )
    }
}

/// What a raw lookup yields: the stored pair at the normalized key, or
/// `NotFound` when the table has no such key.
pub open spec fn get_raw_spec(
    m: Map<Seq<char>, (Compression, Seq<u8>)>,
    path: Seq<char>,
) -> Result<(Compression, Seq<u8>), FilesError> {
    let k = norm_key(path);
    if m.contains_key(k) {
        Ok(m[k])
    } else {
        Err(FilesError::NotFound)
    }
}

/// What a decoding lookup yields: the decoded payload at the normalized
/// key, `NotFound` when the key is absent, `DecodeFailure` when the stored
/// bytes do not decode under their tag.
pub open spec fn get_spec(
    m: Map<Seq<char>, (Compression, Seq<u8>)>,
    path: Seq<char>,
) -> Result<Seq<u8>, FilesError> {
    match get_raw_spec(m, path) {
        Ok(p) => decode_spec(p.0, p.1),
        Err(e) => Err(e),
    }
}

impl Files {
    #[verifier::type_invariant]
    closed spec fn wf(self) -> bool {
        uniq_keys(self.entries@)
    }

    /// Wraps an already filtered, uniquely keyed item store.
    pub(crate) fn from_items(entries: Vec<Item>) -> (r: Files)
        requires
            uniq_keys(entries@),
        ensures
            r@ == entry_table(entries@),
    {
        let r = Files { entries };
        proof {
            assert(r@ =~= entry_table(r.entries@));
        }
        r
    }

    /// Builds a table directly from key, tag and payload triples, as an
    /// embedded static initializer would; a later triple with the same
    /// normalized key replaces an earlier one.
    pub fn from_entries(list: Vec<(String, Compression, Vec<u8>)>) -> (r: Files)
        ensures
            r@ == table_of(entry_views(list@)),
    {
        let ghost views = entry_views(list@);
        let mut entries: Vec<Item> = Vec::new();
        let mut rest = list;
        let n = rest.len();
        let mut i: usize = 0;
        proof {
            assert(entry_table(entries@) =~= table_of(views.take(0)));
        }
        while i < n
            invariant
                i <= n,
                n == views.len(),
                rest@.len() + i == n,
                forall|j: int| 0 <= j < rest@.len() ==> entry_view(#[trigger] rest@[j]) == views[
                    i + j
                ],
                uniq_keys(entries@),
                entry_table(entries@) == table_of(views.take(i as int)),
            decreases n - i,
        {
            let ghost rest_before = rest@;
            let (key, c, data) = rest.remove(0);
            proof {
                assert(entry_view(rest_before[0]) == views[i as int]);
                assert forall|j: int| 0 <= j < rest@.len() implies entry_view(
                    #[trigger] rest@[j],
                ) == views[i + 1 + j] by {
                    assert(rest@[j] == rest_before[j + 1]);
                }
            }
            let k = as_key(key.as_str());
            let ghost before = entries@;
            store(&mut entries, Item { key: k, compression: c, location: key, payload: data });
            proof {
                lemma_entry_table_insert(before, entries@, views, i as int);
            }
            i += 1;
        }
        proof {
            assert(views.take(n as int) =~= views);
        }
        let r = Files { entries };
        proof {
            assert(r@ =~= table_of(views));
        }
        r
    }

    /// All keys of the table, each exactly once, as a restartable cursor.
    pub fn file_names(&self) -> (r: FileNames)
        ensures
            r@.no_duplicates(),
            forall|k: Seq<char>| r@.contains(k) <==> self@.contains_key(k),
    {
        proof {
            use_type_invariant(self);
        }
        let mut names: Vec<String> = Vec::new();
        let mut i: usize = 0;
        while i < self.entries.len()
            invariant
                uniq_keys(self.entries@),
                i <= self.entries@.len(),
                names@.len() == i,
                forall|j: int| 0 <= j < i ==> names@[j]@ == self.entries@[j].key@,
            decreases self.entries@.len() - i,
        {
            names.push(self.entries[i].key.clone());
            i += 1;
        }
        let r = FileNames { names, pos: 0 };
        proof {
            let s = r@;
            assert(s =~= r.names@.map_values(|n: String| n@));
            assert forall|a: int, b: int|
                0 <= a < s.len() && 0 <= b < s.len() && a != b implies s[a] != s[b] by {
                if a < b {
                    assert(self.entries@[a].key@ != self.entries@[b].key@);
                } else {
                    assert(self.entries@[b].key@ != self.entries@[a].key@);
                }
            }
            assert(s.no_duplicates());
            assert forall|k: Seq<char>| s.contains(k) implies self@.contains_key(k) by {
                let j = choose|j: int| 0 <= j < s.len() && s[j] == k;
                lemma_item_map_index(self.entries@, j);
            }
            assert forall|k: Seq<char>| self@.contains_key(k) implies s.contains(k) by {
                let j = lemma_item_map_key(self.entries@, k);
                assert(s[j] == k);
            }
        }
        r
    }

    /// Whether the normalized key is present. Pure; no decoding happens.
    pub fn is_available(&self, path: &str) -> (r: bool)
        ensures
            r == self@.contains_key(norm_key(path@)),
    {
        proof {
            use_type_invariant(self);
        }
        let key = as_key(path);
        match find_index(&self.entries, &key) {
            Some(i) => {
                proof {
                    lemma_item_map_index(self.entries@, i as int);
                }
                true
            },
            None => {
                proof {
                    if self@.contains_key(norm_key(path@)) {
                        let j = lemma_item_map_key(self.entries@, norm_key(path@));
                    }
                }
                false
            },
        }
    }

    /// The stored pair at the key, verbatim: the compression tag and the
    /// payload bytes as embedded, with no decoding.
    pub fn get_raw(&self, path: &str) -> (r: Result<(Compression, Vec<u8>), FilesError>)
        ensures
            r matches Ok(p) ==> get_raw_spec(self@, path@) == Ok::<(Compression, Seq<u8>), FilesError>((p.0, p.1@)),
            r matches Err(e) ==> get_raw_spec(self@, path@) == Err::<(Compression, Seq<u8>), FilesError>(e),
    {
        proof {
            use_type_invariant(self);
        }
        let key = as_key(path);
        match find_index(&self.entries, &key) {
            Some(i) => {
                proof {
                    lemma_item_map_index(self.entries@, i as int);
                }
                Ok((self.entries[i].compression, copy_bytes(&self.entries[i].payload)))
            },
            None => {
                proof {
                    if self@.contains_key(norm_key(path@)) {
                        let j = lemma_item_map_key(self.entries@, norm_key(path@));
                    }
                }
                Err(FilesError::NotFound)
            },
        }
    }

    /// The fully decoded bytes at the key: the stored bytes unchanged for a
    /// plain entry, their gzip decoding for a compressed one.
    pub fn get(&self, path: &str) -> (r: Result<Vec<u8>, FilesError>)
        ensures
            r matches Ok(v) ==> get_spec(self@, path@) == Ok::<Seq<u8>, FilesError>(v@),
            r matches Err(e) ==> get_spec(self@, path@) == Err::<Seq<u8>, FilesError>(e),
    {
        match self.get_raw(path) {
            Ok((c, data)) => decode_payload(c, &data),
            Err(e) => Err(e),
        }
    }

    /// The entry at the key as an incremental reader over its stored pair;
    /// only a missing key fails here, a decoding failure surfaces when the
    /// reader is consumed.
    pub fn read(&self, path: &str) -> (r: Result<FileRead, FilesError>)
        ensures
            r matches Ok(rd) ==> get_raw_spec(self@, path@) == Ok::<(Compression, Seq<u8>), FilesError>(rd@)
                && rd.consumed() == 0,
            r matches Err(e) ==> e == FilesError::NotFound && get_raw_spec(self@, path@)
                == Err::<(Compression, Seq<u8>), FilesError>(e),
    {
        match self.get_raw(path) {
            Ok((c, data)) => Ok(FileRead::fresh(c, data)),
            Err(e) => Err(e),
        }
    }
}

/// One key, tag and payload triple as the contracts see it.
pub open spec fn entry_view(t: (String, Compression, Vec<u8>)) -> (Seq<char>, Compression, Seq<u8>) {
    (t.0@, t.1, t.2@)
}

/// The triples as the contracts see them.
pub open spec fn entry_views(list: Seq<(String, Compression, Vec<u8>)>) -> Seq<
    (Seq<char>, Compression, Seq<u8>),
> {
    list.map_values(|t: (String, Compression, Vec<u8>)| entry_view(t))
}

/// The table a sequence of triples denotes: each key slash-normalized, a
/// later triple overriding an earlier one with the same normalized key.
pub open spec fn table_of(list: Seq<(Seq<char>, Compression, Seq<u8>)>) -> Map<
    Seq<char>,
    (Compression, Seq<u8>),
>
    decreases list.len(),
{
    if list.len() == 0 {
        Map::empty()
    } else {
        table_of(list.drop_last()).insert(
            norm_key(list.last().0),
            (list.last().1, list.last().2),
        )
    }
}

/// The map a store denotes, projected to its stored pairs.
pub(crate) open spec fn entry_table(entries: Seq<Item>) -> Map<Seq<char>, (Compression, Seq<u8>)> {
    Map::new(
        |k: Seq<char>| item_map(entries).contains_key(k),
        |k: Seq<char>| (item_map(entries)[k].compression, item_map(entries)[k].payload),
    )
}

/// Storing the next triple advances the denoted table by one binding.
proof fn lemma_entry_table_insert(
    before: Seq<Item>,
    now: Seq<Item>,
    views: Seq<(Seq<char>, Compression, Seq<u8>)>,
    i: int,
)
    requires
        0 <= i < views.len(),
        entry_table(before) == table_of(views.take(i)),
        item_map(now) == item_map(before).insert(
            norm_key(views[i].0),
            crate::items::ItemModel {
                compression: views[i].1,
                location: views[i].0,
                payload: views[i].2,
            },
        ),
    ensures
        entry_table(now) == table_of(views.take(i + 1)),
{
    assert(views.take(i + 1).drop_last() =~= views.take(i));
    assert(views.take(i + 1).last() == views[i]);
    assert(entry_table(now) =~= table_of(views.take(i)).insert(
        norm_key(views[i].0),
        (views[i].1, views[i].2),
    ));
}

/// A cursor over the file names of a [`Files`] table. Each call of
/// [`Files::file_names`] yields a fresh cursor over the same fixed key set.
pub struct FileNames {
    names: Vec<String>,
    pos: usize,
}

impl View for FileNames {
    type V = Seq<Seq<char>>;

    closed spec fn view(&self) -> Seq<Seq<char>> {
        self.names@.map_values(|n: String| n@).skip(self.pos as int)
    }
}

impl FileNames {
    #[verifier::type_invariant]
    closed spec fn wf(self) -> bool {
        self.pos <= self.names@.len()
    }

    /// The next not yet yielded name, or nothing once all are out.
    pub fn next(&mut self) -> (r: Option<String>)
        ensures
            old(self)@.len() == 0 ==> r is None && final(self)@ == old(self)@,
            old(self)@.len() > 0 ==> final(self)@ == old(self)@.skip(1) && (r matches Some(s)
                && s@ == old(self)@[0]),
    {
        proof {
            use_type_invariant(&*self);
        }
        if self.pos < self.names.len() {
            let s = self.names[self.pos].clone();
            let ghost before = self@;
            self.pos = self.pos + 1;
            proof {
                assert(self@ =~= before.skip(1));
            }
            Some(s)
        } else {
            None
        }
    }
}

/// An incremental reader over one entry's stored pair: decoding happens,
/// and a decoding failure surfaces, only when the bytes are read.
pub struct FileRead {
    compression: Compression,
    data: Vec<u8>,
    decoded: Option<Vec<u8>>,
    pos: usize,
}

impl View for FileRead {
    type V = (Compression, Seq<u8>);

    closed spec fn view(&self) -> (Compression, Seq<u8>) {
        (self.compression, self.data@)
    }
}

/// The next `n` decoded bytes, at most, from position `taken` on.
pub open spec fn chunk_of(dec: Seq<u8>, taken: nat, n: nat) -> Seq<u8> {
    dec.skip(taken as int).take(if n <= dec.len() - taken {
        n as int
    } else {
        dec.len() - taken
    })
}

impl FileRead {
    #[verifier::type_invariant]
    closed spec fn wf(self) -> bool {
        match self.decoded {
            Some(v) => decode_spec(self.compression, self.data@) == Ok::<Seq<u8>, FilesError>(v@)
                && self.pos <= v@.len(),
            None => self.pos == 0,
        }
    }

    /// How many decoded bytes have been read off so far.
    pub closed spec fn consumed(&self) -> nat {
        self.pos as nat
    }

    pub(crate) fn fresh(compression: Compression, data: Vec<u8>) -> (r: FileRead)
        ensures
            r@ == (compression, data@),
            r.consumed() == 0,
    {
        FileRead { compression, data, decoded: None, pos: 0 }
    }

    /// The compression tag the reader decodes under.
    pub fn compression(&self) -> (r: Compression)
        ensures
            r == self@.0,
    {
        self.compression
    }

    /// Reads up to `n` of the next decoded bytes; an empty result means the
    /// stream is exhausted. The first read decodes the stored bytes, and a
    /// decoding failure surfaces here.
    pub fn read_chunk(&mut self, n: usize) -> (r: Result<Vec<u8>, FilesError>)
        ensures
            final(self)@ == old(self)@,
            (r is Err) == (decode_spec(old(self)@.0, old(self)@.1) is Err),
            r matches Err(e) ==> decode_spec(old(self)@.0, old(self)@.1) == Err::<
                Seq<u8>,
                FilesError,
            >(e) && final(self).consumed() == old(self).consumed(),
            r matches Ok(v) ==> (decode_spec(old(self)@.0, old(self)@.1) matches Ok(dec)
                && v@ == chunk_of(dec, old(self).consumed(), n as nat) && final(self).consumed()
                == old(self).consumed() + v@.len()),
    {
        proof {
            use_type_invariant(&*self);
        }
        if self.decoded.is_none() {
            match decode_payload(self.compression, &self.data) {
                Ok(v) => {
                    self.decoded = Some(v);
                },
                Err(e) => {
                    return Err(e);
                },
            }
        }
        let dec = match &self.decoded {
            Some(v) => v,
            None => {
                proof {
                    assert(false);
                }
                return Err(FilesError::DecodeFailure);
            },
        };
        let dlen = dec.len();
        let base = self.pos;
        let remaining = dlen - base;
        let take = if n < remaining {
            n
        } else {
            remaining
        };
        let mut out: Vec<u8> = Vec::new();
        let mut j: usize = 0;
        while j < take
            invariant
                j <= take,
                base + take <= dlen,
                dlen == dec@.len(),
                out@ == dec@.skip(base as int).take(j as int),
            decreases take - j,
        {
            out.push(dec[base + j]);
            proof {
                assert(dec@.skip(base as int).take(j + 1) =~= dec@.skip(base as int).take(
                    j as int,
                ).push(dec@[base + j]));
            }
            j += 1;
        }
        let ghost taken0 = self.consumed();
        self.pos = base + take;
        proof {
            assert(out@ =~= chunk_of(self.decoded->Some_0@, taken0, n as nat));
        }
        Ok(out)
    }

    /// Reads everything not yet read, decoding the stored bytes under their
    /// tag; a decoding failure surfaces here.
    pub fn read_to_end(&mut self) -> (r: Result<Vec<u8>, FilesError>)
        ensures
            final(self)@ == old(self)@,
            (r is Err) == (decode_spec(old(self)@.0, old(self)@.1) is Err),
            r matches Err(e) ==> decode_spec(old(self)@.0, old(self)@.1) == Err::<
                Seq<u8>,
                FilesError,
            >(e),
            r matches Ok(v) ==> (decode_spec(old(self)@.0, old(self)@.1) matches Ok(dec)
                && v@ == dec.skip(old(self).consumed() as int) && final(self).consumed()
                == dec.len()),
    {
        proof {
            use_type_invariant(&*self);
        }
        if self.decoded.is_none() {
            match decode_payload(self.compression, &self.data) {
                Ok(v) => {
                    self.decoded = Some(v);
                },
                Err(e) => {
                    return Err(e);
                },
            }
        }
        let total = match &self.decoded {
            Some(v) => v.len(),
            None => {
                proof {
                    assert(false);
                }
                0
            },
        };
        let ghost full = self.decoded->Some_0@;
        let ghost taken0 = self.consumed();
        let remaining = total - self.pos;
        let r = self.read_chunk(remaining);
        proof {
            if r is Ok {
                assert(chunk_of(full, taken0, remaining as nat) =~= full.skip(taken0 as int));
            }
        }
        r
    }
}

} // verus!
