//! The build-time collector: accumulates a mapping from slash-normalized
//! key to compression tag, source location and payload, and builds the
//! runtime table after applying the exclusion filter.

use crate::codec::Compression;
use crate::codec::copy_bytes;
use crate::codec::entry_encodes;
use crate::codec::gzip_bytes;
use crate::items::Item;
use crate::items::ItemModel;
use crate::items::item_map;
use crate::items::lemma_item_map_index;
use crate::items::lemma_item_map_key;
use crate::items::store;
use crate::items::uniq_keys;
use crate::keys::as_key;
use crate::keys::excluded;
use crate::keys::is_excluded;
use crate::keys::norm_key;
use crate::keys::resolve_location;
use crate::keys::resolved_location;
use crate::table::Files;
use vstd::prelude::*;
use vstd::string::StringExecFns;

verus! {

/// Build-time accumulation of files to embed, keyed by normalized path.
pub struct IncludeDir {
    files: Vec<Item>,
    name: String,
    manifest_dir: String,
}

/// The collector as the contracts see it: the accumulated items, the name
/// the emitted table will carry, and the manifest directory that relative
/// locations resolve against.
pub struct CollectorModel {
    pub files: Map<Seq<char>, ItemModel>,
    pub name: Seq<char>,
    pub manifest_dir: Seq<char>,
}

impl View for IncludeDir {
    type V = CollectorModel;

    closed spec fn view(&self) -> CollectorModel {
        CollectorModel {
            files: item_map(self.files@),
            name: self.name@,
            manifest_dir: self.manifest_dir@,
        }
    }
}

/// The collector after one added file: the normalized key bound to the
/// given tag, the location as handed in, and the given payload.
pub open spec fn add_spec(
    c: CollectorModel,
    path: Seq<char>,
    comp: Compression,
    payload: Seq<u8>,
) -> CollectorModel {
    CollectorModel {
        files: c.files.insert(
            norm_key(path),
            ItemModel { compression: comp, location: path, payload },
        ),
        ..c
    }
}

/// The table the collector builds under a filter: exactly the entries whose
/// resolved location the filter does not exclude, each under its key, with
/// its tag and payload.
pub open spec fn build_spec(c: CollectorModel, filters: Seq<Seq<char>>) -> Map<
    Seq<char>,
    (Compression, Seq<u8>),
> {
    Map::new(
        |k: Seq<char>|
            c.files.contains_key(k) && !excluded(
                resolved_location(c.manifest_dir, c.files[k].location),
                filters,
            ),
        |k: Seq<char>| (c.files[k].compression, c.files[k].payload),
    )
}

/// Starts an empty collection that will emit a table of the given name,
/// resolving relative locations against the given manifest directory.
pub fn start(static_name: &str, manifest_dir: &str) -> (r: IncludeDir)
    ensures
        r@.files == Map::<Seq<char>, ItemModel>::empty(),
        r@.name == static_name@,
        r@.manifest_dir == manifest_dir@,
{
    let r = IncludeDir {
        files: Vec::new(),
        name: String::from_str(static_name),
        manifest_dir: String::from_str(manifest_dir),
    };
    proof {
        assert(r@.files =~= Map::<Seq<char>, ItemModel>::empty());
    }
    r
}

impl IncludeDir {
    #[verifier::type_invariant]
    closed spec fn wf(self) -> bool {
        uniq_keys(self.files@)
    }

    /// The name the emitted table will carry.
    pub fn name(&self) -> (r: &String)
        ensures
            r@ == self@.name,
    {
        &self.name
    }

    /// Adds a single file under the normalized form of `path` as key. With
    /// `Compression::Plain` the content is recorded verbatim; with
    /// `Compression::Gzip` it is encoded eagerly and the encoded bytes are
    /// recorded, and they decode back to exactly `content`. A later add
    /// with the same key replaces the earlier entry.
    pub fn add_file(&mut self, path: &str, content: &Vec<u8>, comp: Compression)
        ensures
            exists|p: Seq<u8>|
                #[trigger] entry_encodes(comp, p, content@) && final(self)@ == add_spec(
                    old(self)@,
                    path@,
                    comp,
                    p,
                ),
            comp == Compression::Plain ==> final(self)@ == add_spec(
                old(self)@,
                path@,
                comp,
                content@,
            ),
    {
        proof {
            use_type_invariant(&*self);
        }
        let key = as_key(path);
        let payload = match comp {
            Compression::Plain => copy_bytes(content),
            Compression::Gzip => gzip_bytes(content),
        };
        let ghost p = payload@;
        let item = Item {
            key,
            compression: comp,
            location: String::from_str(path),
            payload,
        };
        let mut files: Vec<Item> = Vec::new();
        std::mem::swap(&mut files, &mut self.files);
        store(&mut files, item);
        std::mem::swap(&mut files, &mut self.files);
        proof {
            assert(entry_encodes(comp, p, content@) && self@ == add_spec(
                old(self)@,
                path@,
                comp,
                p,
            ));
        }
    }

    /// [`Self::add_file`], chaining style.
    pub fn file(self, path: &str, content: &Vec<u8>, comp: Compression) -> (r: IncludeDir)
        ensures
            exists|p: Seq<u8>|
                #[trigger] entry_encodes(comp, p, content@) && r@ == add_spec(
                    self@,
                    path@,
                    comp,
                    p,
                ),
            comp == Compression::Plain ==> r@ == add_spec(self@, path@, comp, content@),
    {
        let mut s = self;
        s.add_file(path, content, comp);
        s
    }

    /// Adds every regular file of a walked directory tree, in walk order,
    /// all under one compression choice; directories themselves are
    /// skipped. After the call, exactly the walked file keys have joined
    /// the mapping; each holds the tag, location and an encoding of the
    /// bytes of its last walked occurrence.
    pub fn add_dir(&mut self, entries: &Vec<DirEntry>, comp: Compression)
        ensures
            final(self)@.name == old(self)@.name,
            final(self)@.manifest_dir == old(self)@.manifest_dir,
            final(self)@.files.dom() == old(self)@.files.dom().union(
                walked_keys(entries.deep_view()),
            ),
            forall|k: Seq<char>|
                old(self)@.files.contains_key(k) && !walked_keys(entries.deep_view()).contains(k)
                    ==> final(self)@.files[k] == old(self)@.files[k],
            forall|i: int, k: Seq<char>|
                last_walked_file(entries.deep_view(), i, k) ==> walked_entry_holds(
                    entries.deep_view(),
                    i,
                    k,
                    comp,
                    final(self)@,
                ),
    {
        let ghost es = entries.deep_view();
        let ghost orig = self@;
        let mut i: usize = 0;
        let n = entries.len();
        proof {
            assert(es.take(0) =~= Seq::<DirEntryModel>::empty());
            assert(self@.files.dom() =~= orig.files.dom().union(walked_keys(es.take(0))));
            assert(walk_inv(es, 0, comp, orig, self@));
        }
        while i < n
            invariant
                i <= n,
                n == es.len(),
                entries.deep_view() == es,
                entries@.len() == n,
                forall|j: int| 0 <= j < n ==> (#[trigger] entries@[j]).deep_view() == es[j],
                walk_inv(es, i as int, comp, orig, self@),
            decreases n - i,
        {
            let ghost state = self@;
            let e = &entries[i];
            proof {
                assert(e.path@ == es[i as int].path && e.data@ == es[i as int].data && e.is_dir
                    == es[i as int].is_dir);
            }
            if !e.is_dir {
                self.add_file(e.path.as_str(), &e.data, comp);
                proof {
                    let p = choose|p: Seq<u8>|
                        #[trigger] entry_encodes(comp, p, e.data@) && self@ == add_spec(
                            state,
                            e.path@,
                            comp,
                            p,
                        );
                    assert(entry_encodes(comp, p, es[i as int].data) && self@ == add_spec(
                        state,
                        es[i as int].path,
                        comp,
                        p,
                    ));
                }
            }
            proof {
                lemma_add_dir_step(es, i as int, comp, orig, state, self@);
            }
            i += 1;
        }
        proof {
            assert(es.take(n as int) =~= es);
            assert(walk_inv(es, n as int, comp, orig, self@));
        }
    }

    /// [`Self::add_dir`], chaining style.
    pub fn dir(self, entries: &Vec<DirEntry>, comp: Compression) -> (r: IncludeDir)
        ensures
            r@.name == self@.name,
            r@.manifest_dir == self@.manifest_dir,
            r@.files.dom() == self@.files.dom().union(walked_keys(entries.deep_view())),
            forall|k: Seq<char>|
                self@.files.contains_key(k) && !walked_keys(entries.deep_view()).contains(k)
                    ==> r@.files[k] == self@.files[k],
            forall|i: int, k: Seq<char>|
                last_walked_file(entries.deep_view(), i, k) ==> {
                    &&& r@.files.contains_key(k)
                    &&& r@.files[k].compression == comp
                    &&& r@.files[k].location == entries.deep_view()[i].path
                    &&& entry_encodes(comp, r@.files[k].payload, entries.deep_view()[i].data)
                },
    {
        let mut s = self;
        s.add_dir(entries, comp);
        s
    }

    /// Applies the exclusion filter and builds the runtime table: an entry
    /// survives exactly when its resolved location ends with none of the
    /// filter entries, and it keeps its tag and payload under its key.
    pub fn build(self, filter: &Vec<String>) -> (r: Files)
        ensures
            r@ == build_spec(self@, filter.deep_view()),
    {
        proof {
            use_type_invariant(&self);
        }
        let ghost c = self@;
        let ghost fv = filter.deep_view();
        let mut kept: Vec<Item> = Vec::new();
        let ghost mut src: Seq<int> = Seq::empty();
        let ghost mut pos: Seq<int> = Seq::empty();
        let mut i: usize = 0;
        let n = self.files.len();
        proof {
            assert(kept_corr(self.files@, kept@, src, pos, 0, c.manifest_dir, fv));
        }
        while i < n
            invariant
                i <= n,
                n == self.files@.len(),
                uniq_keys(self.files@),
                c == self@,
                fv == filter.deep_view(),
                kept_corr(self.files@, kept@, src, pos, i as int, c.manifest_dir, fv),
            decreases n - i,
        {
            let it = &self.files[i];
            let resolved = resolve_location(self.manifest_dir.as_str(), it.location.as_str());
            if !is_excluded(resolved.as_str(), filter) {
                let ghost before = kept@;
                let ghost src0 = src;
                let ghost pos0 = pos;
                kept.push(
                    Item {
                        key: it.key.clone(),
                        compression: it.compression,
                        location: it.location.clone(),
                        payload: copy_bytes(&it.payload),
                    },
                );
                proof {
                    src = src.push(i as int);
                    pos = pos.push(kept@.len() - 1);
                    assert(same_item(self.files@[i as int], kept@.last()));
                    lemma_keep_step(
                        self.files@,
                        before,
                        kept@,
                        src0,
                        src,
                        pos0,
                        pos,
                        i as int,
                        c.manifest_dir,
                        fv,
                    );
                }
            } else {
                proof {
                    let pos0 = pos;
                    pos = pos.push(-1);
                    lemma_skip_step(
                        self.files@,
                        kept@,
                        pos0,
                        pos,
                        src,
                        i as int,
                        c.manifest_dir,
                        fv,
                    );
                }
            }
            i += 1;
        }
        let ghost kept_final = kept@;
        let r = Files::from_items(kept);
        proof {
            lemma_build_table(self.files@, kept_final, src, pos, c, fv);
            assert(r@ =~= build_spec(c, fv));
        }
        r
    }
}

/// One visited node of a directory walk}

/// One visited node of a directory walk}

/// One visited node of a directory walk}

/// One visited node of a directory walk: its path, whether it is a
/// directory, and its bytes (empty for a directory).
pub struct DirEntry {
    pub path: String,
    pub is_dir: bool,
    pub data: Vec<u8>,
}

/// A walked node as the contracts see it.
pub struct DirEntryModel {
    pub path: Seq<char>,
    pub is_dir: bool,
    pub data: Seq<u8>,
}

impl View for DirEntry {
    type V = DirEntryModel;

    open spec fn view(&self) -> DirEntryModel {
        DirEntryModel { path: self.path@, is_dir: self.is_dir, data: self.data@ }
    }
}

impl DeepView for DirEntry {
    type V = DirEntryModel;

    open spec fn deep_view(&self) -> DirEntryModel {
        self.view()
    }
}

/// The keys a walk contributes: one per regular file visited.
pub open spec fn walked_keys(es: Seq<DirEntryModel>) -> Set<Seq<char>> {
    Set::new(
        |k: Seq<char>|
            exists|i: int|
                0 <= i < es.len() && !(#[trigger] es[i]).is_dir && norm_key(es[i].path) == k,
    )
}

/// Position `i` holds the last regular file of the walk whose path
/// normalizes to `k`.
pub open spec fn last_walked_file(es: Seq<DirEntryModel>, i: int, k: Seq<char>) -> bool {
    &&& 0 <= i < es.len()
    &&& !es[i].is_dir
    &&& norm_key(es[i].path) == k
    &&& forall|j: int| i < j < es.len() && !(#[trigger] es[j]).is_dir ==> norm_key(es[j].path) != k
}

/// The collector holds, at key `k`, the walked file at position `i`: the
/// walk's tag, its path as location, and an encoding of its bytes.
pub open spec fn walked_entry_holds(
    es: Seq<DirEntryModel>,
    i: int,
    k: Seq<char>,
    comp: Compression,
    cur: CollectorModel,
) -> bool {
    &&& cur.files.contains_key(k)
    &&& cur.files[k].compression == comp
    &&& cur.files[k].location == es[i].path
    &&& entry_encodes(comp, cur.files[k].payload, es[i].data)
}

/// The walk summary after `i` visited entries.
pub open spec fn walk_inv(
    es: Seq<DirEntryModel>,
    i: int,
    comp: Compression,
    orig: CollectorModel,
    cur: CollectorModel,
) -> bool {
    &&& cur.name == orig.name
    &&& cur.manifest_dir == orig.manifest_dir
    &&& cur.files.dom() == orig.files.dom().union(walked_keys(es.take(i)))
    &&& forall|k: Seq<char>|
        orig.files.contains_key(k) && !walked_keys(es.take(i)).contains(k)
            ==> #[trigger] cur.files[k] == orig.files[k]
    &&& forall|j: int, k: Seq<char>|
        last_walked_file(es.take(i), j, k) ==> walked_entry_holds(es, j, k, comp, cur)
}

/// One step of a directory walk preserves the walk summary.
proof fn lemma_add_dir_step(
    es: Seq<DirEntryModel>,
    i: int,
    comp: Compression,
    orig: CollectorModel,
    state: CollectorModel,
    now: CollectorModel,
)
    requires
        0 <= i < es.len(),
        walk_inv(es, i, comp, orig, state),
        es[i].is_dir ==> now == state,
        !es[i].is_dir ==> exists|p: Seq<u8>|
            #[trigger] entry_encodes(comp, p, es[i].data) && now == add_spec(
                state,
                es[i].path,
                comp,
                p,
            ),
    ensures
        walk_inv(es, i + 1, comp, orig, now),
{
    let prefix = es.take(i);
    let longer = es.take(i + 1);
    assert(longer.drop_last() =~= prefix);
    assert(longer.len() == i + 1);
    assert(longer[i] == es[i]);
    assert(forall|j: int| 0 <= j <= i ==> longer[j] == es[j]);
    if es[i].is_dir {
        assert forall|k: Seq<char>| walked_keys(longer).contains(k) implies walked_keys(
            prefix,
        ).contains(k) by {
            let j = choose|j: int|
                0 <= j < longer.len() && !(#[trigger] longer[j]).is_dir && norm_key(longer[j].path)
                    == k;
            assert(j < i);
            assert(!prefix[j].is_dir && norm_key(prefix[j].path) == k);
        }
        assert forall|k: Seq<char>| walked_keys(prefix).contains(k) implies walked_keys(
            longer,
        ).contains(k) by {
            let j = choose|j: int|
                0 <= j < prefix.len() && !(#[trigger] prefix[j]).is_dir && norm_key(prefix[j].path)
                    == k;
            assert(!longer[j].is_dir && norm_key(longer[j].path) == k);
        }
        assert(walked_keys(longer) =~= walked_keys(prefix));
        assert(now.files.dom() =~= orig.files.dom().union(walked_keys(longer)));
        assert forall|j: int, k: Seq<char>| last_walked_file(longer, j, k) implies
            walked_entry_holds(es, j, k, comp, now) by {
            assert(j < i);
            assert(last_walked_file(prefix, j, k));
        }
    } else {
        let nk = norm_key(es[i].path);
        let p = choose|p: Seq<u8>|
            #[trigger] entry_encodes(comp, p, es[i].data) && now == add_spec(
                state,
                es[i].path,
                comp,
                p,
            );
        assert(now.files == state.files.insert(
            nk,
            ItemModel { compression: comp, location: es[i].path, payload: p },
        ));
        assert forall|k: Seq<char>| walked_keys(longer).contains(k) implies walked_keys(
            prefix,
        ).insert(nk).contains(k) by {
            let j = choose|j: int|
                0 <= j < longer.len() && !(#[trigger] longer[j]).is_dir && norm_key(longer[j].path)
                    == k;
            if j < i {
                assert(!prefix[j].is_dir && norm_key(prefix[j].path) == k);
            } else {
                assert(k == nk);
            }
        }
        assert forall|k: Seq<char>| walked_keys(prefix).insert(nk).contains(k) implies walked_keys(
            longer,
        ).contains(k) by {
            if k == nk {
                assert(!longer[i].is_dir && norm_key(longer[i].path) == k);
            } else {
                let j = choose|j: int|
                    0 <= j < prefix.len() && !(#[trigger] prefix[j]).is_dir && norm_key(
                        prefix[j].path,
                    ) == k;
                assert(!longer[j].is_dir && norm_key(longer[j].path) == k);
            }
        }
        assert(walked_keys(longer) =~= walked_keys(prefix).insert(nk));
        assert(now.files.dom() =~= orig.files.dom().union(walked_keys(longer)));
        assert forall|k: Seq<char>|
            orig.files.contains_key(k) && !walked_keys(longer).contains(k) implies #[trigger] now
                .files[k] == orig.files[k] by {
            assert(k != nk);
            assert(!walked_keys(prefix).contains(k));
        }
        assert forall|j: int, k: Seq<char>| last_walked_file(longer, j, k) implies
            walked_entry_holds(es, j, k, comp, now) by {
            if j == i {
                assert(k == nk);
            } else {
                assert(last_walked_file(prefix, j, k));
                assert(!longer[i].is_dir && norm_key(longer[i].path) == nk);
                assert(k != nk);
                assert(walked_entry_holds(es, j, k, comp, state));
            }
        }
    }
}

/// Two items that agree on key and model.
pub(crate) open spec fn same_item(a: Item, b: Item) -> bool {
    a.key@ == b.key@ && a.model() == b.model()
}

/// The kept-items summary after `i` examined entries: `kept` holds copies
/// of exactly the surviving entries among the first `i`, with `src` naming
/// each copy's source index and `pos` each surviving source's copy index.
spec fn kept_corr(
    files: Seq<Item>,
    kept: Seq<Item>,
    src: Seq<int>,
    pos: Seq<int>,
    i: int,
    md: Seq<char>,
    fv: Seq<Seq<char>>,
) -> bool {
    &&& uniq_keys(kept)
    &&& src.len() == kept.len()
    &&& pos.len() == i
    &&& forall|j: int|
        0 <= j < kept.len() ==> 0 <= #[trigger] src[j] < i && same_item(files[src[j]], kept[j])
    &&& forall|l: int|
        0 <= l < i && !excluded(resolved_location(md, (#[trigger] files[l]).location@), fv)
            ==> 0 <= pos[l] < kept.len() && same_item(files[l], kept[pos[l]])
    &&& forall|j: int|
        0 <= j < kept.len() ==> !excluded(
            resolved_location(md, (#[trigger] kept[j]).location@),
            fv,
        )
}

/// Keeping one more surviving entry extends the kept summary.
proof fn lemma_keep_step(
    files: Seq<Item>,
    before: Seq<Item>,
    now: Seq<Item>,
    src0: Seq<int>,
    src1: Seq<int>,
    pos0: Seq<int>,
    pos1: Seq<int>,
    i: int,
    md: Seq<char>,
    fv: Seq<Seq<char>>,
)
    requires
        uniq_keys(files),
        0 <= i < files.len(),
        kept_corr(files, before, src0, pos0, i, md, fv),
        now.len() == before.len() + 1,
        forall|j: int| 0 <= j < before.len() ==> now[j] == before[j],
        same_item(files[i], now[now.len() - 1]),
        !excluded(resolved_location(md, files[i].location@), fv),
        src1 == src0.push(i),
        pos1 == pos0.push(now.len() - 1),
    ensures
        kept_corr(files, now, src1, pos1, i + 1, md, fv),
{
    assert forall|a: int, b: int| 0 <= a < b < now.len() implies (#[trigger] now[a]).key@ != (
    #[trigger] now[b]).key@ by {
        if b < now.len() - 1 {
            assert(now[a] == before[a] && now[b] == before[b]);
        } else {
            assert(now[a] == before[a]);
            assert(same_item(files[src0[a]], before[a]));
            assert(files[src0[a]].key@ != files[i].key@);
        }
    }
    assert forall|j: int|
        0 <= j < now.len() implies 0 <= #[trigger] src1[j] < i + 1 && same_item(
        files[src1[j]],
        now[j],
    ) by {
        if j < now.len() - 1 {
            assert(now[j] == before[j]);
            assert(src1[j] == src0[j]);
        } else {
            assert(src1[j] == i);
        }
    }
    assert forall|l: int|
        0 <= l < i + 1 && !excluded(
            resolved_location(md, (#[trigger] files[l]).location@),
            fv,
        ) implies 0 <= pos1[l] < now.len() && same_item(files[l], now[pos1[l]]) by {
        if l < i {
            assert(pos1[l] == pos0[l]);
            assert(now[pos0[l]] == before[pos0[l]]);
        } else {
            assert(pos1[l] == now.len() - 1);
        }
    }
    assert forall|j: int| 0 <= j < now.len() implies !excluded(
        resolved_location(md, (#[trigger] now[j]).location@),
        fv,
    ) by {
        if j < now.len() - 1 {
            assert(now[j] == before[j]);
        } else {
            assert(now[j].location@ == files[i].location@);
        }
    }
}

/// Skipping an excluded entry keeps the kept summary.
proof fn lemma_skip_step(
    files: Seq<Item>,
    kept: Seq<Item>,
    pos0: Seq<int>,
    pos1: Seq<int>,
    src: Seq<int>,
    i: int,
    md: Seq<char>,
    fv: Seq<Seq<char>>,
)
    requires
        0 <= i < files.len(),
        kept_corr(files, kept, src, pos0, i, md, fv),
        excluded(resolved_location(md, files[i].location@), fv),
        pos1 == pos0.push(-1),
    ensures
        kept_corr(files, kept, src, pos1, i + 1, md, fv),
{
    assert forall|j: int|
        0 <= j < kept.len() implies 0 <= #[trigger] src[j] < i + 1 && same_item(
        files[src[j]],
        kept[j],
    ) by {
        assert(0 <= src[j] < i && same_item(files[src[j]], kept[j]));
    }
    assert forall|l: int|
        0 <= l < i + 1 && !excluded(
            resolved_location(md, (#[trigger] files[l]).location@),
            fv,
        ) implies 0 <= pos1[l] < kept.len() && same_item(files[l], kept[pos1[l]]) by {
        assert(l != i);
        assert(pos1[l] == pos0[l]);
    }
}

/// The kept items denote exactly the filtered table.
proof fn lemma_build_table(
    files: Seq<Item>,
    kept: Seq<Item>,
    src: Seq<int>,
    pos: Seq<int>,
    c: CollectorModel,
    fv: Seq<Seq<char>>,
)
    requires
        uniq_keys(files),
        c.files == item_map(files),
        kept_corr(files, kept, src, pos, files.len() as int, c.manifest_dir, fv),
    ensures
        crate::table::entry_table(kept) == build_spec(c, fv),
{
    let lhs = crate::table::entry_table(kept);
    let rhs = build_spec(c, fv);
    assert forall|k: Seq<char>| #[trigger] lhs.contains_key(k) implies rhs.contains_key(k)
        && lhs[k] == rhs[k] by {
        let j = lemma_item_map_key(kept, k);
        lemma_item_map_index(kept, j);
        let l = src[j];
        assert(same_item(files[l], kept[j]));
        lemma_item_map_index(files, l);
        assert(kept[j].location@ == files[l].location@);
    }
    assert forall|k: Seq<char>| #[trigger] rhs.contains_key(k) implies lhs.contains_key(k) by {
        let l = lemma_item_map_key(files, k);
        lemma_item_map_index(files, l);
        let j = pos[l];
        assert(same_item(files[l], kept[j]));
        lemma_item_map_index(kept, j);
    }
    assert(lhs =~= rhs);
}

} // verus!
