//! How snapshot files are named.

use crate::key::{key_text, SnapKey};
use crate::text::{
    decimal, digits_value, ends_with, has_prefix, has_suffix, parse_u64, parsed_u64,
    pieces, split, starts_with, texts, to_chars,
};
use vstd::prelude::*;

verus! {

/// Name prefix of the files of a snapshot that was generated here.
pub const SNAP_GEN_PREFIX: &'static str = "gen";

/// Name prefix of the files of a snapshot that was received.
pub const SNAP_REV_PREFIX: &'static str = "rev";

/// Suffix of a file that is still being written.
pub const TMP_FILE_SUFFIX: &'static str = ".tmp";

/// Suffix of a snapshot that is one file.
pub const SNAP_FILE_SUFFIX: &'static str = ".snap";

/// Suffix of the file of one column family.
pub const SST_FILE_SUFFIX: &'static str = ".sst";

/// Suffix of a snapshot's metadata file.
pub const META_FILE_SUFFIX: &'static str = ".meta";

pub open spec fn snap_prefix(is_sending: bool) -> Seq<char> {
    if is_sending {
        SNAP_GEN_PREFIX@
    } else {
        SNAP_REV_PREFIX@
    }
}

/// What the names of all files of a snapshot begin with.
pub open spec fn file_prefix(is_sending: bool, key: SnapKey) -> Seq<char> {
    snap_prefix(is_sending) + seq!['_'] + key_text(key)
}

/// The common beginning of a snapshot's file names.
pub fn make_prefix(is_sending: bool, key: &SnapKey) -> (prefix: String)
    ensures
        prefix@ == file_prefix(is_sending, *key),
{
    proof {
        reveal_strlit("_");
        assert("_"@ =~= seq!['_']);
    }
    let mut out = String::new();
    out.append(
        if is_sending {
            SNAP_GEN_PREFIX
        } else {
            SNAP_REV_PREFIX
        },
    );
    out.append("_");
    key.push_text(&mut out);
    assert(out@ =~= file_prefix(is_sending, *key));
    out
}

/// A path in a directory.
pub open spec fn path_in(dir: Seq<char>, name: Seq<char>) -> Seq<char> {
    if dir.len() == 0 || dir.last() == '/' {
        dir + name
    } else {
        dir + seq!['/'] + name
    }
}

/// The path of a file in a directory. A separator is put between the two where the directory does
/// not end with one.
pub fn join_path(dir: &str, name: &str) -> (path: String)
    ensures
        path@ == path_in(dir@, name@),
{
    proof {
        reveal_strlit("/");
        assert("/"@ =~= seq!['/']);
    }
    let mut out = dir.to_owned();
    if dir.is_empty() || has_suffix(dir, "/") {
        assert(dir@.len() > 0 ==> dir@.skip(dir@.len() - 1) =~= seq![dir@.last()]);
        assert(dir@.len() > 0 ==> dir@.skip(dir@.len() - 1)[0] == dir@.last());
        assert(dir@.len() > 0 ==> dir@.last() == '/');
    } else {
        assert(dir@.skip(dir@.len() - 1) =~= seq![dir@.last()]);
        out.append("/");
    }
    out.append(name);
    out
}

/// The name of a snapshot that is one file.
pub open spec fn snap_file_name(is_sending: bool, key: SnapKey) -> Seq<char> {
    file_prefix(is_sending, key) + SNAP_FILE_SUFFIX@
}

/// The name of a snapshot's file for one column family.
pub open spec fn cf_file_name(is_sending: bool, key: SnapKey, cf: Seq<char>) -> Seq<char> {
    file_prefix(is_sending, key) + seq!['_'] + cf + SST_FILE_SUFFIX@
}

/// The name of a snapshot's metadata file.
pub open spec fn meta_file_name(is_sending: bool, key: SnapKey) -> Seq<char> {
    file_prefix(is_sending, key) + META_FILE_SUFFIX@
}

/// The name that a file has while it is being written.
pub open spec fn tmp_name(name: Seq<char>) -> Seq<char> {
    name + TMP_FILE_SUFFIX@
}

/// The name of a snapshot that is one file.
pub fn make_snap_file_name(is_sending: bool, key: &SnapKey) -> (name: String)
    ensures
        name@ == snap_file_name(is_sending, *key),
{
    let mut out = make_prefix(is_sending, key);
    out.append(SNAP_FILE_SUFFIX);
    out
}

/// The name of a snapshot's file for one column family.
pub fn make_cf_file_name(prefix: &str, cf: &str) -> (name: String)
    ensures
        name@ == prefix@ + seq!['_'] + cf@ + SST_FILE_SUFFIX@,
{
    proof {
        reveal_strlit("_");
        assert("_"@ =~= seq!['_']);
    }
    let mut out = prefix.to_owned();
    out.append("_");
    out.append(cf);
    out.append(SST_FILE_SUFFIX);
    out
}

/// The name of a snapshot's metadata file.
pub fn make_meta_file_name(prefix: &str) -> (name: String)
    ensures
        name@ == prefix@ + META_FILE_SUFFIX@,
{
    let mut out = prefix.to_owned();
    out.append(META_FILE_SUFFIX);
    out
}

/// The name that a file has while it is being written.
pub fn make_tmp_name(name: &str) -> (tmp: String)
    ensures
        tmp@ == tmp_name(name@),
{
    let mut out = name.to_owned();
    out.append(TMP_FILE_SUFFIX);
    out
}

/// What the start-up of the snapshot directory does with a file.
#[derive(Clone, Copy, PartialEq, Eq, Debug, Structural)]
pub enum FileKind {
    /// Left over from an unfinished write: remove it.
    Temporary,
    /// Snapshot data: its size counts.
    Data,
    /// Leave it alone.
    Other,
}

pub open spec fn file_kind_of(name: Seq<char>) -> FileKind {
    if ends_with(name, TMP_FILE_SUFFIX@) {
        FileKind::Temporary
    } else if ends_with(name, SNAP_FILE_SUFFIX@) || ends_with(name, SST_FILE_SUFFIX@) {
        FileKind::Data
    } else {
        FileKind::Other
    }
}

/// What kind of file a name in the snapshot directory stands for.
pub fn file_kind(name: &str) -> (kind: FileKind)
    ensures
        kind == file_kind_of(name@),
{
    if has_suffix(name, TMP_FILE_SUFFIX) {
        FileKind::Temporary
    } else if has_suffix(name, SNAP_FILE_SUFFIX) || has_suffix(name, SST_FILE_SUFFIX) {
        FileKind::Data
    } else {
        FileKind::Other
    }
}

/// The pieces that are numbers, in order.
pub open spec fn numbers_in(parts: Seq<Seq<char>>) -> Seq<u64>
    decreases parts.len(),
{
    if parts.len() == 0 {
        Seq::empty()
    } else {
        let front = numbers_in(parts.drop_last());
        match parsed_u64(parts.last()) {
            Some(n) => front.push(n),
            None => front,
        }
    }
}

/// The snapshot that a file name stands for, and whether it was generated here. The key's numbers
/// are looked for between the underscores of what stands before the first dot; there must be
/// exactly three.
pub open spec fn snap_of_name(name: Seq<char>) -> Option<(SnapKey, bool)> {
    let stem = pieces(name, '.')[0];
    let numbers = numbers_in(pieces(stem, '_').skip(1));
    if numbers.len() == 3 {
        Some(
            (
                SnapKey { region_id: numbers[0], term: numbers[1], idx: numbers[2] },
                starts_with(name, SNAP_GEN_PREFIX@),
            ),
        )
    } else {
        None
    }
}

proof fn lemma_pieces_nonempty(s: Seq<char>, sep: char)
    ensures
        pieces(s, sep).len() > 0,
    decreases s.len(),
{
    if s.len() > 0 {
        lemma_pieces_nonempty(s.drop_last(), sep);
    }
}

/// Reads the snapshot key out of a file name, and whether the snapshot was generated here.
pub fn parse_snap_name(name: &str) -> (parsed: Option<(SnapKey, bool)>)
    ensures
        parsed == snap_of_name(name@),
{
    let is_sending = has_prefix(name, SNAP_GEN_PREFIX);
    let chars = to_chars(name);
    let by_dot = split(&chars, '.');
    proof {
        lemma_pieces_nonempty(name@, '.');
        assert(texts(by_dot@).len() == by_dot@.len());
        assert(texts(by_dot@)[0] == by_dot@[0]@);
    }
    let parts = split(&by_dot[0], '_');
    let ghost stem = pieces(name@, '.')[0];
    let ghost all = pieces(stem, '_');
    proof {
        lemma_pieces_nonempty(stem, '_');
        assert(texts(parts@).len() == parts@.len());
    }
    let mut numbers: Vec<u64> = Vec::new();
    let mut i: usize = 1;
    assert(all.skip(1).take(0) =~= Seq::<Seq<char>>::empty());
    while i < parts.len()
        invariant
            1 <= i <= parts.len(),
            texts(parts@) == all,
            all.len() == parts@.len(),
            numbers@ == numbers_in(all.skip(1).take(i - 1)),
        decreases parts.len() - i,
    {
        let ghost seen = all.skip(1).take(i as int);
        proof {
            assert(seen.drop_last() =~= all.skip(1).take(i - 1));
            assert(seen.last() == all[i as int]);
            assert(texts(parts@)[i as int] == parts@[i as int]@);
        }
        match parse_u64(&parts[i]) {
            Some(n) => {
                numbers.push(n);
            },
            None => {},
        }
        i = i + 1;
    }
    assert(all.skip(1).take(all.len() - 1) =~= all.skip(1));
    if numbers.len() != 3 {
        return None;
    }
    Some((SnapKey::new(numbers[0], numbers[1], numbers[2]), is_sending))
}

proof fn lemma_pieces_join(a: Seq<char>, b: Seq<char>, sep: char)
    ensures
        pieces(a + seq![sep] + b, sep) == pieces(a, sep) + pieces(b, sep),
    decreases b.len(),
{
    let whole = a + seq![sep] + b;
    lemma_pieces_nonempty(b, sep);
    if b.len() == 0 {
        assert(whole.drop_last() =~= a);
        assert(pieces(whole, sep) =~= pieces(a, sep) + pieces(b, sep));
    } else {
        lemma_pieces_join(a, b.drop_last(), sep);
        lemma_pieces_nonempty(b.drop_last(), sep);
        assert(whole.drop_last() =~= a + seq![sep] + b.drop_last());
        assert(pieces(whole, sep) =~= pieces(a, sep) + pieces(b, sep));
    }
}

pub proof fn lemma_pieces_single(s: Seq<char>, sep: char)
    requires
        !s.contains(sep),
    ensures
        pieces(s, sep) == seq![s],
    decreases s.len(),
{
    if s.len() > 0 {
        assert(s.last() != sep) by {
            assert(s.contains(s.last()));
        }
        assert forall|i: int| 0 <= i < s.drop_last().len() implies s.drop_last()[i] != sep by {
            assert(s.contains(s[i]));
        }
        lemma_pieces_single(s.drop_last(), sep);
        assert(s.drop_last().push(s.last()) =~= s);
    } else {
        assert(s =~= Seq::<char>::empty());
    }
    assert(pieces(s, sep) =~= seq![s]);
}

proof fn lemma_decimal_digits(n: nat)
    ensures
        decimal(n).len() > 0,
        forall|i: int| 0 <= i < decimal(n).len() ==> '0' <= #[trigger] decimal(n)[i] <= '9',
        digits_value(decimal(n)) == Some(n),
    decreases n,
{
    if n < 10 {
        assert(decimal(n).drop_last() =~= Seq::<char>::empty());
        assert(digits_value(decimal(n).drop_last()) == Some(0nat));
    } else {
        lemma_decimal_digits(n / 10);
        assert(decimal(n).drop_last() =~= decimal(n / 10));
    }
}

proof fn lemma_decimal_parses(n: u64)
    ensures
        parsed_u64(decimal(n as nat)) == Some(n),
        !decimal(n as nat).contains('.'),
        !decimal(n as nat).contains('_'),
{
    lemma_decimal_digits(n as nat);
    assert(decimal(n as nat)[0] != '+');
}

proof fn lemma_numbers_append(a: Seq<Seq<char>>, b: Seq<Seq<char>>)
    ensures
        numbers_in(a + b) == numbers_in(a) + numbers_in(b),
    decreases b.len(),
{
    if b.len() == 0 {
        assert(a + b =~= a);
        assert(numbers_in(a) + numbers_in(b) =~= numbers_in(a));
    } else {
        lemma_numbers_append(a, b.drop_last());
        assert((a + b).drop_last() =~= a + b.drop_last());
        assert(numbers_in(a + b) =~= numbers_in(a) + numbers_in(b));
    }
}

proof fn lemma_numbers_one(n: u64)
    ensures
        numbers_in(seq![decimal(n as nat)]) == seq![n],
{
    lemma_decimal_parses(n);
    let one = seq![decimal(n as nat)];
    assert(one.drop_last() =~= Seq::<Seq<char>>::empty());
    assert(numbers_in(one.drop_last()) =~= Seq::<u64>::empty());
    assert(numbers_in(one) =~= seq![n]);
}

/// What a label behind the key adds to the pieces of a file name's stem.
spec fn label_pieces(label: Seq<char>) -> Seq<Seq<char>> {
    if label.len() > 0 {
        pieces(label.skip(1), '_')
    } else {
        Seq::empty()
    }
}

proof fn lemma_labelled_pieces(s: Seq<char>, label: Seq<char>)
    requires
        !s.contains('_'),
        label.len() > 0 ==> label[0] == '_',
    ensures
        pieces(s + label, '_') == seq![s] + label_pieces(label),
{
    lemma_pieces_single(s, '_');
    if label.len() > 0 {
        lemma_pieces_join(s, label.skip(1), '_');
        assert(s + seq!['_'] + label.skip(1) =~= s + label);
    } else {
        assert(s + label =~= s);
        assert(seq![s] + label_pieces(label) =~= seq![s]);
    }
}

proof fn lemma_stem_pieces(
    head: Seq<char>,
    a: Seq<char>,
    b: Seq<char>,
    c: Seq<char>,
    label: Seq<char>,
)
    requires
        !head.contains('_'),
        !a.contains('_'),
        !b.contains('_'),
        !c.contains('_'),
        label.len() > 0 ==> label[0] == '_',
    ensures
        pieces(head + seq!['_'] + (a + seq!['_'] + (b + seq!['_'] + (c + label))), '_').skip(1)
            == seq![a] + (seq![b] + (seq![c] + label_pieces(label))),
{
    lemma_pieces_single(head, '_');
    lemma_pieces_single(a, '_');
    lemma_pieces_single(b, '_');
    lemma_labelled_pieces(c, label);
    let last = c + label;
    lemma_pieces_join(b, last, '_');
    lemma_pieces_join(a, b + seq!['_'] + last, '_');
    lemma_pieces_join(head, a + seq!['_'] + (b + seq!['_'] + last), '_');
    let found = seq![a] + (seq![b] + (seq![c] + label_pieces(label)));
    assert((seq![head] + found).skip(1) =~= found);
}

/// The numbers in a file name's stem, where a label without numbers may follow the key.
proof fn lemma_stem_numbers(is_sending: bool, key: SnapKey, label: Seq<char>)
    requires
        label.len() > 0 ==> label[0] == '_' && numbers_in(pieces(label.skip(1), '_')).len() == 0,
    ensures
        numbers_in(pieces(file_prefix(is_sending, key) + label, '_').skip(1)) == seq![
            key.region_id,
            key.term,
            key.idx,
        ],
{
    let head = snap_prefix(is_sending);
    let a = decimal(key.region_id as nat);
    let b = decimal(key.term as nat);
    let c = decimal(key.idx as nat);
    lemma_decimal_parses(key.region_id);
    lemma_decimal_parses(key.term);
    lemma_decimal_parses(key.idx);
    assert(!head.contains('_')) by {
        reveal_strlit("gen");
        reveal_strlit("rev");
    }
    lemma_stem_pieces(head, a, b, c, label);
    assert(head + seq!['_'] + (a + seq!['_'] + (b + seq!['_'] + (c + label))) =~= file_prefix(
        is_sending,
        key,
    ) + label);
    let tail = label_pieces(label);
    lemma_numbers_one(key.region_id);
    lemma_numbers_one(key.term);
    lemma_numbers_one(key.idx);
    lemma_numbers_append(seq![c], tail);
    lemma_numbers_append(seq![b], seq![c] + tail);
    lemma_numbers_append(seq![a], seq![b] + (seq![c] + tail));
    assert(numbers_in(tail) =~= Seq::<u64>::empty());
    assert(seq![key.region_id] + (seq![key.term] + (seq![key.idx] + Seq::<u64>::empty())) =~= seq![
        key.region_id,
        key.term,
        key.idx,
    ]);
}

proof fn lemma_prefix_plain(is_sending: bool, key: SnapKey)
    ensures
        !file_prefix(is_sending, key).contains('.'),
{
    reveal_strlit("gen");
    reveal_strlit("rev");
    lemma_decimal_digits(key.region_id as nat);
    lemma_decimal_digits(key.term as nat);
    lemma_decimal_digits(key.idx as nat);
}

/// A name made of a snapshot's prefix, a label that holds no number and no dot, and an extension
/// stands for that snapshot.
pub proof fn law_name_stands_for_snapshot(
    is_sending: bool,
    key: SnapKey,
    label: Seq<char>,
    extension: Seq<char>,
)
    requires
        label.len() > 0 ==> label[0] == '_' && numbers_in(pieces(label.skip(1), '_')).len() == 0,
        !label.contains('.'),
        extension.len() > 0,
        extension[0] == '.',
    ensures
        snap_of_name(file_prefix(is_sending, key) + label + extension) == Some((key, is_sending)),
{
    reveal_strlit("gen");
    reveal_strlit("rev");
    let stem = file_prefix(is_sending, key) + label;
    let name = stem + extension;
    lemma_prefix_plain(is_sending, key);
    lemma_stem_numbers(is_sending, key, label);
    assert(!stem.contains('.')) by {
        assert forall|i: int| 0 <= i < stem.len() implies stem[i] != '.' by {
            let p = file_prefix(is_sending, key);
            if i < p.len() {
                assert(p.contains(p[i]));
            } else {
                assert(label.contains(label[i - p.len()]));
            }
        }
    }
    lemma_pieces_single(stem, '.');
    lemma_pieces_join(stem, extension.skip(1), '.');
    assert(stem + seq!['.'] + extension.skip(1) =~= name);
    assert(pieces(name, '.')[0] == stem);
    let gen = SNAP_GEN_PREFIX@;
    if is_sending {
        assert(name.take(3) =~= gen);
    } else {
        assert(name.take(3)[0] == 'r');
        assert(gen[0] == 'g');
    }
    assert(starts_with(name, gen) == is_sending);
}

/// Every file of a snapshot that is one file, finished or not, stands for the snapshot. At start-up
/// the unfinished one is removed and the finished one is counted.
pub proof fn law_snap_file_names(is_sending: bool, key: SnapKey)
    ensures
        snap_of_name(snap_file_name(is_sending, key)) == Some((key, is_sending)),
        snap_of_name(tmp_name(snap_file_name(is_sending, key))) == Some((key, is_sending)),
        file_kind_of(snap_file_name(is_sending, key)) == FileKind::Data,
        file_kind_of(tmp_name(snap_file_name(is_sending, key))) == FileKind::Temporary,
{
    reveal_strlit(".snap");
    reveal_strlit(".tmp");
    let prefix = file_prefix(is_sending, key);
    let none = Seq::<char>::empty();
    law_name_stands_for_snapshot(is_sending, key, none, SNAP_FILE_SUFFIX@);
    law_name_stands_for_snapshot(is_sending, key, none, SNAP_FILE_SUFFIX@ + TMP_FILE_SUFFIX@);
    assert(prefix + none + SNAP_FILE_SUFFIX@ =~= snap_file_name(is_sending, key));
    assert(prefix + none + (SNAP_FILE_SUFFIX@ + TMP_FILE_SUFFIX@) =~= tmp_name(
        snap_file_name(is_sending, key),
    ));
    lemma_suffix(prefix, SNAP_FILE_SUFFIX@);
    lemma_suffix(snap_file_name(is_sending, key), TMP_FILE_SUFFIX@);
    lemma_not_suffix(prefix, SNAP_FILE_SUFFIX@, TMP_FILE_SUFFIX@, 2);
}

proof fn lemma_suffix(s: Seq<char>, suffix: Seq<char>)
    ensures
        ends_with(s + suffix, suffix),
{
    assert((s + suffix).skip(s.len() as int) =~= suffix);
}

/// A text does not end with `other` where the two endings differ `back` characters before the end.
proof fn lemma_not_suffix(s: Seq<char>, suffix: Seq<char>, other: Seq<char>, back: int)
    requires
        0 < back <= suffix.len(),
        back <= other.len(),
        suffix[suffix.len() - back] != other[other.len() - back],
    ensures
        !ends_with(s + suffix, other),
{
    let whole = s + suffix;
    if other.len() <= whole.len() {
        let tail = whole.skip(whole.len() - other.len());
        assert(tail[other.len() - back] == suffix[suffix.len() - back]);
    }
}

/// Every file of one column family of a snapshot, finished or not, stands for the snapshot, where
/// the column family's name holds no dot and no number. At start-up the unfinished one is removed
/// and the finished one is counted.
pub proof fn law_cf_file_names(is_sending: bool, key: SnapKey, cf: Seq<char>)
    requires
        !cf.contains('.'),
        numbers_in(pieces(cf, '_')).len() == 0,
    ensures
        snap_of_name(cf_file_name(is_sending, key, cf)) == Some((key, is_sending)),
        snap_of_name(tmp_name(cf_file_name(is_sending, key, cf))) == Some((key, is_sending)),
        file_kind_of(cf_file_name(is_sending, key, cf)) == FileKind::Data,
        file_kind_of(tmp_name(cf_file_name(is_sending, key, cf))) == FileKind::Temporary,
{
    reveal_strlit(".sst");
    reveal_strlit(".tmp");
    let prefix = file_prefix(is_sending, key);
    let label = seq!['_'] + cf;
    assert(label.skip(1) =~= cf);
    assert(!label.contains('.')) by {
        assert forall|i: int| 0 <= i < label.len() implies label[i] != '.' by {
            if i > 0 {
                assert(cf.contains(cf[i - 1]));
            }
        }
    }
    law_name_stands_for_snapshot(is_sending, key, label, SST_FILE_SUFFIX@);
    law_name_stands_for_snapshot(is_sending, key, label, SST_FILE_SUFFIX@ + TMP_FILE_SUFFIX@);
    assert(prefix + label + SST_FILE_SUFFIX@ =~= cf_file_name(is_sending, key, cf));
    assert(prefix + label + (SST_FILE_SUFFIX@ + TMP_FILE_SUFFIX@) =~= tmp_name(
        cf_file_name(is_sending, key, cf),
    ));
    lemma_suffix(prefix + label, SST_FILE_SUFFIX@);
    lemma_suffix(cf_file_name(is_sending, key, cf), TMP_FILE_SUFFIX@);
    lemma_not_suffix(prefix + label, SST_FILE_SUFFIX@, TMP_FILE_SUFFIX@, 1);
}

/// The metadata file of a snapshot, finished or not, stands for the snapshot. At start-up the
/// unfinished one is removed and the finished one is left alone.
pub proof fn law_meta_file_names(is_sending: bool, key: SnapKey)
    ensures
        snap_of_name(meta_file_name(is_sending, key)) == Some((key, is_sending)),
        snap_of_name(tmp_name(meta_file_name(is_sending, key))) == Some((key, is_sending)),
        file_kind_of(meta_file_name(is_sending, key)) == FileKind::Other,
        file_kind_of(tmp_name(meta_file_name(is_sending, key))) == FileKind::Temporary,
{
    reveal_strlit(".meta");
    reveal_strlit(".tmp");
    reveal_strlit(".snap");
    reveal_strlit(".sst");
    let prefix = file_prefix(is_sending, key);
    let none = Seq::<char>::empty();
    law_name_stands_for_snapshot(is_sending, key, none, META_FILE_SUFFIX@);
    law_name_stands_for_snapshot(is_sending, key, none, META_FILE_SUFFIX@ + TMP_FILE_SUFFIX@);
    assert(prefix + none + META_FILE_SUFFIX@ =~= meta_file_name(is_sending, key));
    assert(prefix + none + (META_FILE_SUFFIX@ + TMP_FILE_SUFFIX@) =~= tmp_name(
        meta_file_name(is_sending, key),
    ));
    lemma_suffix(meta_file_name(is_sending, key), TMP_FILE_SUFFIX@);
    lemma_not_suffix(prefix, META_FILE_SUFFIX@, TMP_FILE_SUFFIX@, 1);
    lemma_not_suffix(prefix, META_FILE_SUFFIX@, SNAP_FILE_SUFFIX@, 1);
    lemma_not_suffix(prefix, META_FILE_SUFFIX@, SST_FILE_SUFFIX@, 1);
}

/// Two snapshots never share a file, nor do a sent and a received one of the same key.
pub proof fn law_snap_file_names_differ(
    is_sending: bool,
    key: SnapKey,
    other_sending: bool,
    other: SnapKey,
)
    ensures
        snap_file_name(is_sending, key) == snap_file_name(other_sending, other) ==> key == other
            && is_sending == other_sending,
        meta_file_name(is_sending, key) == meta_file_name(other_sending, other) ==> key == other
            && is_sending == other_sending,
{
    law_snap_file_names(is_sending, key);
    law_snap_file_names(other_sending, other);
    law_meta_file_names(is_sending, key);
    law_meta_file_names(other_sending, other);
}

/// The names of a snapshot's files, letter by letter: the direction, the three numbers of the key
/// in decimal with underscores between, and what the file is.
pub proof fn law_names_letter_by_letter(is_sending: bool, key: SnapKey, cf: Seq<char>)
    ensures
        ({
            let head = (if is_sending {
                "gen"@
            } else {
                "rev"@
            }) + seq!['_'] + decimal(key.region_id as nat) + seq!['_'] + decimal(key.term as nat)
                + seq!['_'] + decimal(key.idx as nat);
            &&& file_prefix(is_sending, key) == head
            &&& snap_file_name(is_sending, key) == head + ".snap"@
            &&& meta_file_name(is_sending, key) == head + ".meta"@
            &&& cf_file_name(is_sending, key, cf) == head + seq!['_'] + cf + ".sst"@
            &&& tmp_name(cf) == cf + ".tmp"@
        }),
{
    let head = (if is_sending {
        "gen"@
    } else {
        "rev"@
    }) + seq!['_'] + decimal(key.region_id as nat) + seq!['_'] + decimal(key.term as nat) + seq![
        '_',
    ] + decimal(key.idx as nat);
    assert(file_prefix(is_sending, key) =~= head);
}

/// A path is the directory, one separator and the name, where the directory has no separator at its
/// end already.
pub proof fn law_paths(dir: Seq<char>, name: Seq<char>)
    ensures
        starts_with(path_in(dir, name), dir),
        ends_with(path_in(dir, name), name),
        path_in(dir, name).len() == dir.len() + name.len() + if dir.len() == 0 || dir.last() == '/' {
            0int
        } else {
            1int
        },
        dir.len() > 0 ==> path_in(dir, name)[path_in(dir, name).len() - name.len() - 1] == '/',
{
    let path = path_in(dir, name);
    assert(path.take(dir.len() as int) =~= dir);
    assert(path.skip(path.len() - name.len()) =~= name);
}

/// What start-up does with a file goes by how its name ends: a temporary suffix first, then the
/// suffixes of data.
pub proof fn law_kinds_go_by_suffix(name: Seq<char>)
    ensures
        file_kind_of(name) == FileKind::Temporary <==> ends_with(name, ".tmp"@),
        file_kind_of(name) == FileKind::Data <==> !ends_with(name, ".tmp"@) && (ends_with(
            name,
            ".snap"@,
        ) || ends_with(name, ".sst"@)),
{
}

/// The numbers among parts are picked part by part, in order: one that is a number gives it, any
/// other nothing.
pub proof fn law_numbers_go_by_part(a: Seq<Seq<char>>, b: Seq<Seq<char>>, part: Seq<char>)
    ensures
        numbers_in(a + b) == numbers_in(a) + numbers_in(b),
        numbers_in(seq![part]) == (match parsed_u64(part) {
            Some(n) => seq![n],
            None => Seq::empty(),
        }),
{
    lemma_numbers_append(a, b);
    let one = seq![part];
    assert(one.drop_last() =~= Seq::<Seq<char>>::empty());
    assert(numbers_in(one.drop_last()) =~= Seq::<u64>::empty());
    assert(numbers_in(one) =~= match parsed_u64(part) {
        Some(n) => seq![n],
        None => Seq::empty(),
    });
}

/// A name tells a snapshot exactly if three numbers are among the parts that follow the first
/// underscore in what stands before the first dot: these are the key, in order, and the snapshot
/// was generated here exactly if the name begins so.
pub proof fn law_what_a_name_tells(name: Seq<char>, key: SnapKey, is_sending: bool)
    ensures
        snap_of_name(name) == Some((key, is_sending)) <==> {
            &&& numbers_in(pieces(pieces(name, '.')[0], '_').skip(1)) == seq![
                key.region_id,
                key.term,
                key.idx,
            ]
            &&& is_sending <==> starts_with(name, "gen"@)
        },
{
    let numbers = numbers_in(pieces(pieces(name, '.')[0], '_').skip(1));
    if numbers.len() == 3 && numbers[0] == key.region_id && numbers[1] == key.term && numbers[2]
        == key.idx {
        assert(numbers =~= seq![key.region_id, key.term, key.idx]);
    }
}

} // verus!
