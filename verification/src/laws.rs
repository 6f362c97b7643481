//! The laws the pipeline obeys, stated over the collector and table models
//! and proved from the public contracts.

use crate::codec::Compression;
use crate::codec::FilesError;
use crate::collect::CollectorModel;
use crate::collect::add_spec;
use crate::collect::build_spec;
use crate::keys::excluded;
use crate::keys::norm_key;
use crate::keys::resolved_location;
use crate::table::get_raw_spec;
use crate::table::get_spec;
use vstd::prelude::*;

verus! {

/// A file collected without compression and not excluded by the filter is
/// returned by a decoding lookup byte for byte.
pub proof fn lemma_plain_round_trip(
    c: CollectorModel,
    path: Seq<char>,
    content: Seq<u8>,
    filters: Seq<Seq<char>>,
)
    requires
        !excluded(resolved_location(c.manifest_dir, path), filters),
    ensures
        get_spec(
            build_spec(add_spec(c, path, Compression::Plain, content), filters),
            path,
        ) == Ok::<Seq<u8>, FilesError>(content),
{
    let m = build_spec(add_spec(c, path, Compression::Plain, content), filters);
    assert(m.contains_key(norm_key(path)));
    assert(m[norm_key(path)] == (Compression::Plain, content));
}

/// A file collected with gzip compression and not excluded by the filter is
/// returned by a decoding lookup byte for byte, whatever gzip stream the
/// encoder produced for it.
pub proof fn lemma_gzip_round_trip(
    c: CollectorModel,
    path: Seq<char>,
    content: Seq<u8>,
    payload: Seq<u8>,
    filters: Seq<Seq<char>>,
)
    requires
        crate::codec::entry_encodes(Compression::Gzip, payload, content),
        !excluded(resolved_location(c.manifest_dir, path), filters),
    ensures
        get_spec(
            build_spec(add_spec(c, path, Compression::Gzip, payload), filters),
            path,
        ) == Ok::<Seq<u8>, FilesError>(content),
{
    let m = build_spec(add_spec(c, path, Compression::Gzip, payload), filters);
    assert(m.contains_key(norm_key(path)));
    assert(m[norm_key(path)] == (Compression::Gzip, payload));
}

/// A key is available in the built table exactly when the collector holds
/// its normalized form and the filter does not exclude that entry's
/// resolved location.
pub proof fn lemma_available_after_build(
    c: CollectorModel,
    filters: Seq<Seq<char>>,
    path: Seq<char>,
)
    ensures
        build_spec(c, filters).contains_key(norm_key(path)) <==> (c.files.contains_key(
            norm_key(path),
        ) && !excluded(
            resolved_location(c.manifest_dir, c.files[norm_key(path)].location),
            filters,
        )),
{
}

/// Two query strings whose normalized forms agree resolve alike: lookups
/// cannot tell them apart.
pub proof fn lemma_normalized_lookup(
    m: Map<Seq<char>, (Compression, Seq<u8>)>,
    path_a: Seq<char>,
    path_b: Seq<char>,
)
    requires
        norm_key(path_a) == norm_key(path_b),
    ensures
        get_raw_spec(m, path_a) == get_raw_spec(m, path_b),
        get_spec(m, path_a) == get_spec(m, path_b),
{
}

} // verus!
