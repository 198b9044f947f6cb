//! The whole way of a snapshot: built, sent, received, saved and applied.

use crate::apply::{progress_after_all, start_of, Want};
use crate::codec::stream_of;
use crate::records::{pair_records, CfContent, Pairs};
use crate::store::{
    is_scan, is_scan_of_region, law_cf_of_region_is_applied_whole, law_scans_make_the_region, part_of,
    put_cfs, put_pairs, Store,
};
use crate::types::Region;
use crate::v2::apply::{apply_step_of, law_step_is_about_its_file, steps_up_to, ApplyStep};
use crate::v2::files::{snapshot_cf_names, CfFile, Snap};
use crate::v2::meta::{
    complete, covers, described, law_announced_is_total, law_complete_metadata_covers,
    law_own_metadata_is_complete, lemma_cf_names_differ, lemma_entries_by_name, meta_names, meta_of,
    total_of, with_meta,
};
use crate::v2::save::{as_recorded, capped, law_save_succeeds_exactly, saved_after, SaveStep};
use crate::v2::transfer::{
    law_copy_is_faithful, law_whole_read, measured, reads_to_end, stream, written_contents,
};
use vstd::prelude::*;

verus! {

/// Files of a snapshot that were built: one for each column family, recorded with the size and the
/// checksum of its content.
pub open spec fn is_built(files: Seq<CfFile>, contents: Seq<Seq<u8>>) -> bool {
    &&& files.map_values(|file: CfFile| file.cf@) == snapshot_cf_names()
    &&& contents.len() == files.len()
    &&& forall|i: int| 0 <= i < contents.len() ==> (#[trigger] contents[i]).len() <= u64::MAX
    &&& as_recorded(files, measured(contents))
}

/// What was built arrives: metadata of one's own files is accepted where it is received, files that
/// took everything that reading the built ones gives hold what those hold, and saving them
/// succeeds.
pub proof fn law_built_snapshot_arrives(
    built: Seq<CfFile>,
    contents: Seq<Seq<u8>>,
    given: Seq<Seq<u8>>,
    copy: Snap,
)
    requires
        is_built(built, contents),
        reads_to_end(contents, 0, 0, given),
        copy.receiving(),
        meta_of(copy.cf_files@) == meta_of(built),
        copy.received() == stream(given),
    ensures
        complete(meta_names(meta_of(built))),
        stream(given).len() == total_of(built),
        written_contents(copy.cf_files@) == contents,
        saved_after(copy, measured(contents), 4 * copy.cf_files@.len() + 2) == Some(
            SaveStep::Done(capped(total_of(built))),
        ),
{
    let files = copy.cf_files@;
    law_own_metadata_is_complete(built);
    assert(meta_of(files).len() == files.len() && meta_of(built).len() == built.len());
    assert forall|i: int| 0 <= i < files.len() implies (#[trigger] files[i]).size
        == contents[i].len() && built[i].size == contents[i].len() && files[i].checksum
        == measured(contents)[i].1 by {
        assert(meta_of(files)[i] == described(files[i]));
        assert(meta_of(built)[i] == described(built[i]));
        assert(measured(contents)[i] == (built[i].size, built[i].checksum));
    }
    assert forall|i: int| 0 <= i < built.len() implies (#[trigger] built[i]).size
        == contents[i].len() by {
        assert(files[i].size == contents[i].len());
    }
    law_whole_read(built, contents, given);
    law_copy_is_faithful(copy, contents);
    assert(as_recorded(files, measured(contents))) by {
        assert forall|i: int| 0 <= i < contents.len() implies #[trigger] measured(contents)[i] == (
            files[i].size,
            files[i].checksum,
        ) by {
            assert(files[i].size == contents[i].len());
        }
    }
    law_save_succeeds_exactly(copy, measured(contents));
    law_announced_is_total(files);
    law_announced_is_total(built);
}

/// What applying a file puts into the store: the keys and values of its records, those of its table
/// as the store reads it, or nothing where it is skipped.
pub open spec fn put_by_step(
    step: ApplyStep,
    records: Pairs,
    table: spec_fn(Seq<u8>) -> Pairs,
    content: Seq<u8>,
) -> Pairs {
    match step {
        ApplyStep::Records(_) => records,
        ApplyStep::Ingest(_) => table(content),
        _ => Seq::empty(),
    }
}

/// What applying the files of a snapshot puts into the store, by column family.
pub open spec fn applied_content(
    cfs: Seq<CfContent>,
    files: Seq<CfFile>,
    records: Pairs,
    table: spec_fn(Seq<u8>) -> Pairs,
    contents: Seq<Seq<u8>>,
) -> Seq<CfContent> {
    Seq::new(
        cfs.len(),
        |i: int|
            CfContent {
                name: cfs[i].name,
                pairs: put_by_step(apply_step_of(files, i as usize), records, table, contents[i]),
            },
    )
}

/// A store after a step of applying: the file that the step names is read, as records or as a table,
/// and what it holds is put into the column family of that file.
pub open spec fn after_step(
    store: Store,
    files: Seq<CfFile>,
    contents: Seq<Seq<u8>>,
    read: (
        spec_fn(Seq<char>) -> Seq<u8>,
        spec_fn(Seq<u8>) -> Pairs,
        spec_fn(Seq<u8>) -> Pairs,
    ),
    step: ApplyStep,
) -> Store {
    let (name, records, table) = read;
    match step {
        ApplyStep::Records(i) => put_pairs(
            store,
            name(files[i as int].cf@),
            records(contents[i as int]),
        ),
        ApplyStep::Ingest(i) => put_pairs(
            store,
            name(files[i as int].cf@),
            table(contents[i as int]),
        ),
        _ => store,
    }
}

/// A store after steps of applying, one after the other.
pub open spec fn after_steps(
    store: Store,
    files: Seq<CfFile>,
    contents: Seq<Seq<u8>>,
    read: (
        spec_fn(Seq<char>) -> Seq<u8>,
        spec_fn(Seq<u8>) -> Pairs,
        spec_fn(Seq<u8>) -> Pairs,
    ),
    steps: Seq<ApplyStep>,
) -> Store
    decreases steps.len(),
{
    if steps.len() == 0 {
        store
    } else {
        after_step(
            after_steps(store, files, contents, read, steps.drop_last()),
            files,
            contents,
            read,
            steps.last(),
        )
    }
}

/// What was saved can be applied, and gives back what it was built from. The metadata covers the
/// files, each of which has the size and checksum that it was built with. No record of the locks is
/// refused. However the store reads a table, if it reads those that were built as the pairs that
/// went into them, and a table without pairs is an empty file, then an empty store gets the
/// region's part of the store that the snapshot was built from, of all three column families and of
/// no others.
pub proof fn law_saved_snapshot_is_applied(
    db: Store,
    region: Region,
    built: Seq<CfFile>,
    contents: Seq<Seq<u8>>,
    fresh: Seq<CfFile>,
    cfs: Seq<CfContent>,
    records: Seq<Seq<u8>>,
    table: spec_fn(Seq<u8>) -> Pairs,
)
    requires
        is_built(built, contents),
        fresh.map_values(|file: CfFile| file.cf@) == snapshot_cf_names(),
        cfs.len() == 3,
        is_scan_of_region(db, region, cfs),
        contents[1] == stream_of(pair_records(cfs[1].pairs).push(Seq::empty())),
        stream_of(records) == contents[1],
        forall|i: int|
            i == 0 || i == 2 ==> if (#[trigger] contents[i]).len() == 0 {
                cfs[i].pairs.len() == 0
            } else {
                table(contents[i]) == cfs[i].pairs
            },
    ensures
        covers(meta_of(built), fresh),
        ({
            let files = with_meta(fresh, meta_of(built), fresh.len() as int);
            let locks = progress_after_all(start_of(true), true, region, records);
            &&& meta_of(files) == meta_of(built)
            &&& locks is Some
            &&& locks.unwrap().want == Want::Nothing
            &&& applied_content(cfs, files, locks.unwrap().current.pairs, table, contents) == cfs
            &&& put_cfs(
                Map::empty(),
                applied_content(cfs, files, locks.unwrap().current.pairs, table, contents),
            ) == part_of(db, cfs, region)
        }),
{
    let meta = meta_of(built);
    law_own_metadata_is_complete(built);
    law_complete_metadata_covers(meta, fresh);
    lemma_entries_by_name(built, fresh);
    let files = with_meta(fresh, meta, fresh.len() as int);
    let own = fresh.map_values(|file: CfFile| file.cf@);
    assert(own.len() == fresh.len());
    assert(own[0] == fresh[0].cf@ && own[1] == fresh[1].cf@ && own[2] == fresh[2].cf@);
    assert forall|i: int| 0 <= i < 3 implies (#[trigger] files[i]).size == contents[i].len() by {
        assert(meta_of(files)[i] == described(files[i]));
        assert(meta_of(built)[i] == described(built[i]));
        assert(measured(contents)[i] == (built[i].size, built[i].checksum));
    }
    lemma_cf_names_differ();
    assert(files[0].cf@ == own[0] && files[1].cf@ == own[1] && files[2].cf@ == own[2]);
    assert(files[0].size == contents[0].len() && files[2].size == contents[2].len());
    assert(cfs[1].name.len() > 0 && is_scan(db, cfs[1].name, region, cfs[1].pairs));
    law_cf_of_region_is_applied_whole(db, region, cfs[1], records);
    let locks = progress_after_all(start_of(true), true, region, records).unwrap();
    let applied = applied_content(cfs, files, locks.current.pairs, table, contents);
    assert(apply_step_of(files, 1) == ApplyStep::Records(1));
    assert forall|i: int| 0 <= i < 3 implies #[trigger] applied[i] == cfs[i] by {
        if i != 1 {
            assert(i == 0 || i == 2);
            assert(contents[i].len() == files[i].size);
            if contents[i].len() == 0 {
                assert(applied[i].pairs =~= cfs[i].pairs);
            }
        }
    }
    assert(applied =~= cfs);
    law_scans_make_the_region(db, region, cfs);
}

/// Taking the steps of applying, one after the other, gives back what a saved snapshot was built
/// from. However the store reads names, records and tables, if it reads the names and the tables of
/// what was built as what went into them, and the records of the locks as taking them one by one
/// does, then an empty store gets the region's part of the store that the snapshot was built from.
pub proof fn law_steps_restore_the_region(
    db: Store,
    region: Region,
    built: Seq<CfFile>,
    contents: Seq<Seq<u8>>,
    fresh: Seq<CfFile>,
    cfs: Seq<CfContent>,
    records: Seq<Seq<u8>>,
    read: (
        spec_fn(Seq<char>) -> Seq<u8>,
        spec_fn(Seq<u8>) -> Pairs,
        spec_fn(Seq<u8>) -> Pairs,
    ),
)
    requires
        is_built(built, contents),
        fresh.map_values(|file: CfFile| file.cf@) == snapshot_cf_names(),
        cfs.len() == 3,
        is_scan_of_region(db, region, cfs),
        forall|i: int| 0 <= i < 3 ==> (#[trigger] cfs[i]).name == (read.0)(snapshot_cf_names()[i]),
        contents[1] == stream_of(pair_records(cfs[1].pairs).push(Seq::empty())),
        stream_of(records) == contents[1],
        progress_after_all(start_of(true), true, region, records) matches Some(p) ==> (read.1)(
            contents[1],
        ) == p.current.pairs,
        forall|i: int|
            i == 0 || i == 2 ==> if (#[trigger] contents[i]).len() == 0 {
                cfs[i].pairs.len() == 0
            } else {
                (read.2)(contents[i]) == cfs[i].pairs
            },
    ensures
        ({
            let files = with_meta(fresh, meta_of(built), fresh.len() as int);
            after_steps(Map::empty(), files, contents, read, steps_up_to(files, 3)) == part_of(
                db,
                cfs,
                region,
            )
        }),
{
    let meta = meta_of(built);
    law_own_metadata_is_complete(built);
    law_complete_metadata_covers(meta, fresh);
    lemma_entries_by_name(built, fresh);
    let files = with_meta(fresh, meta, fresh.len() as int);
    let own = fresh.map_values(|file: CfFile| file.cf@);
    assert(own.len() == fresh.len());
    assert(own[0] == fresh[0].cf@ && own[1] == fresh[1].cf@ && own[2] == fresh[2].cf@);
    assert forall|i: int| 0 <= i < 3 implies (#[trigger] files[i]).size == contents[i].len() by {
        assert(meta_of(files)[i] == described(files[i]));
        assert(meta_of(built)[i] == described(built[i]));
        assert(measured(contents)[i] == (built[i].size, built[i].checksum));
    }
    lemma_cf_names_differ();
    assert(files[0].cf@ == own[0] && files[1].cf@ == own[1] && files[2].cf@ == own[2]);
    assert(cfs[1].name.len() > 0 && is_scan(db, cfs[1].name, region, cfs[1].pairs));
    law_cf_of_region_is_applied_whole(db, region, cfs[1], records);
    law_scans_make_the_region(db, region, cfs);
    let steps = steps_up_to(files, 3);
    assert forall|i: int, store: Store| 0 <= i < 3 implies #[trigger] after_step(
        store,
        files,
        contents,
        read,
        steps[i],
    ) == put_pairs(store, cfs[i].name, cfs[i].pairs) by {
        law_step_is_about_its_file(files, i as usize);
        assert(files[i].size == contents[i].len());
        assert(cfs[i].name == (read.0)(snapshot_cf_names()[i]));
        assert(i == 0 || i == 1 || i == 2);
    }
    let nothing: Store = Map::empty();
    assert forall|n: nat| n <= 3 implies #[trigger] after_steps(
        nothing,
        files,
        contents,
        read,
        steps.take(n as int),
    ) == put_cfs(nothing, cfs.take(n as int)) by {
        lemma_steps_put(files, contents, read, steps, cfs, n);
    }
    assert(steps.take(3) =~= steps);
    assert(cfs.take(3) =~= cfs);
    assert(after_steps(nothing, files, contents, read, steps.take(3nat as int)) == put_cfs(
        nothing,
        cfs.take(3nat as int),
    ));
}

proof fn lemma_steps_put(
    files: Seq<CfFile>,
    contents: Seq<Seq<u8>>,
    read: (
        spec_fn(Seq<char>) -> Seq<u8>,
        spec_fn(Seq<u8>) -> Pairs,
        spec_fn(Seq<u8>) -> Pairs,
    ),
    steps: Seq<ApplyStep>,
    cfs: Seq<CfContent>,
    n: nat,
)
    requires
        n <= 3,
        steps.len() == 3,
        cfs.len() == 3,
        forall|i: int, store: Store|
            0 <= i < 3 ==> #[trigger] after_step(store, files, contents, read, steps[i])
                == put_pairs(store, cfs[i].name, cfs[i].pairs),
    ensures
        after_steps(Map::empty(), files, contents, read, steps.take(n as int)) == put_cfs(
            Map::empty(),
            cfs.take(n as int),
        ),
    decreases n,
{
    if n > 0 {
        let m = n - 1;
        lemma_steps_put(files, contents, read, steps, cfs, m as nat);
        assert(steps.take(n as int).drop_last() =~= steps.take(m));
        assert(cfs.take(n as int).drop_last() =~= cfs.take(m));
        assert(steps.take(n as int).last() == steps[m]);
        assert(cfs.take(n as int).last() == cfs[m]);
    }
}

} // verus!
