//! Bundled units: a `.sog` file is a ZIP archive of a unit's files, possibly
//! under a common directory.

use vstd::prelude::*;
use vstd::string::*;

use crate::error::{blames_data, ReadError, ReadProblem};
use crate::gaussian::PlanarGaussian3d;
use crate::io::sog::{
    answers, checked_meta, parse_sog, reply_view, texts, unit_reads, Reply, SogMeta,
    SogTextures,
};
use crate::text::{ends_with, has_suffix, under};

verus! {

/// What the `zip` crate lists of an archive: the names of its entries in the
/// order of the central directory, or the words of its refusal.
pub uninterp spec fn zip_names(bytes: Seq<u8>) -> Result<Seq<Seq<char>>, Seq<char>>;

/// What the `zip` crate reads under a name: the words of its refusal to open
/// the archive or the entry, or else the entry's bytes or the error while reading
/// them: whether it is of the kind for invalid data, and its words.
pub uninterp spec fn zip_entry(bytes: Seq<u8>, path: Seq<char>) -> Result<
    Result<Seq<u8>, (bool, Seq<char>)>,
    Seq<char>,
>;

/// The view of a listing.
pub open spec fn listing_view(r: Result<Vec<String>, String>) -> Result<Seq<Seq<char>>, Seq<char>> {
    match r {
        Ok(names) => Ok(texts(names@)),
        Err(reason) => Err(reason@),
    }
}

/// The outcome of reading an entry: the outer refusal is of opening it, the
/// inner one of reading it through, with whether it is for invalid data.
pub type EntryRead = Result<Result<Vec<u8>, (bool, String)>, String>;

/// The view of the outcome of reading an entry.
pub open spec fn entry_view(r: EntryRead) -> Result<
    Result<Seq<u8>, (bool, Seq<char>)>,
    Seq<char>,
> {
    match r {
        Ok(Ok(bytes)) => Ok(Ok(bytes@)),
        Ok(Err((invalid_data, reason))) => Ok(Err((invalid_data, reason@))),
        Err(reason) => Err(reason@),
    }
}

/// Calls `zip::ZipArchive::new` on the bytes and `file_names` on the archive.
/// Claimed: the names, their order and a refusal's words are a function of the
/// bytes alone.
#[verifier::external_body]
fn list_archive(bytes: &[u8]) -> (r: Result<Vec<String>, String>)
    ensures
        listing_view(r) == zip_names(bytes@),
{
    let archive = zip::ZipArchive::new(std::io::Cursor::new(bytes)).map_err(|e| e.to_string())?;
    Ok(archive.file_names().map(str::to_owned).collect())
}

/// Calls `by_name` on the archive that `zip::ZipArchive::new` makes of the
/// bytes and reads the entry to its end. Claimed: the bytes, or a refusal's words
/// and whether its kind is that for invalid data, are a function of the archive's
/// bytes and the name alone.
#[verifier::external_body]
fn read_archive(bytes: &[u8], path: &str) -> (r: EntryRead)
    ensures
        entry_view(r) == zip_entry(bytes@, path@),
{
    let mut archive = zip::ZipArchive::new(std::io::Cursor::new(bytes)).map_err(
        |e| e.to_string(),
    )?;
    let mut entry = archive.by_name(path).map_err(|e| e.to_string())?;
    let mut content = Vec::new();
    Ok(std::io::Read::read_to_end(&mut entry, &mut content).map(|_| content).map_err(
        |e| (e.kind() == std::io::ErrorKind::InvalidData, e.to_string()),
    ))
}

/// Whether an entry is the file `name`, at the top or in some directory.
pub open spec fn is_file(entry: Seq<char>, name: Seq<char>) -> bool {
    entry == name || ends_with(entry, seq!['/'] + name)
}

/// The first entry that is the file `name`.
pub open spec fn resolved(names: Seq<Seq<char>>, name: Seq<char>) -> Option<Seq<char>>
    decreases names.len(),
{
    if names.len() == 0 {
        None
    } else if is_file(names[0], name) {
        Some(names[0])
    } else {
        resolved(names.drop_first(), name)
    }
}

/// What reading the entry at `path` amounts to.
pub open spec fn entry_outcome(
    path: Seq<char>,
    read: Result<Result<Seq<u8>, (bool, Seq<char>)>, Seq<char>>,
) -> Result<Seq<u8>, ReadProblem<Seq<char>>> {
    match read {
        Ok(Ok(bytes)) => Ok(bytes),
        Ok(Err((invalid_data, reason))) => Err(ReadProblem::Io { reason, invalid_data }),
        Err(reason) => Err(ReadProblem::BundleEntry { path, reason }),
    }
}

/// The file `name` of a bundle with these entries.
pub open spec fn bundle_file(bytes: Seq<u8>, names: Seq<Seq<char>>, name: Seq<char>) -> Result<
    Seq<u8>,
    ReadProblem<Seq<char>>,
> {
    match resolved(names, name) {
        Some(path) => entry_outcome(path, zip_entry(bytes, path)),
        None => Err(ReadProblem::BundleMissing { name }),
    }
}

/// Finds the first entry that is the file `name`.
pub fn resolve<'a>(names: &'a Vec<String>, name: &str) -> (r: Option<&'a str>)
    ensures
        r is Some <==> resolved(texts(names@), name@) is Some,
        r matches Some(path) ==> resolved(texts(names@), name@) == Some(path@),
{
    let mut tail = String::new();
    proof {
        reveal_strlit("/");
    }
    tail.append("/");
    tail.append(name);
    assert(tail@ =~= seq!['/'] + name@);
    let wanted = name.to_owned();
    let mut k: usize = 0;
    assert(texts(names@).subrange(0, texts(names@).len() as int) =~= texts(names@));
    while k < names.len()
        invariant
            k <= names@.len(),
            tail@ == seq!['/'] + name@,
            wanted@ == name@,
            resolved(texts(names@), name@) == resolved(
                texts(names@).subrange(k as int, names@.len() as int),
                name@,
            ),
        decreases names@.len() - k,
    {
        let ghost rest = texts(names@).subrange(k as int, names@.len() as int);
        assert(rest[0] == names@[k as int]@);
        assert(rest.drop_first() =~= texts(names@).subrange(k + 1, names@.len() as int));
        if names[k] == wanted || has_suffix(names[k].as_str(), tail.as_str()) {
            return Some(names[k].as_str());
        }
        k = k + 1;
    }
    None
}

/// Turns what came of reading the entry at `path` into an answer.
pub fn entry_reply(path: &str, read: EntryRead) -> (r: Reply)
    ensures
        reply_view(r) == entry_outcome(path@, entry_view(read)),
{
    match read {
        Ok(Ok(bytes)) => Ok(bytes),
        Ok(Err((invalid_data, reason))) => Err(ReadProblem::Io { reason, invalid_data }),
        Err(reason) => Err(ReadProblem::BundleEntry { path: path.to_owned(), reason }),
    }
}

/// Whether a bundle with these entries, read by `read`, may answer a request
/// for `name` with `reply`.
pub open spec fn bundle_answers<R: Fn(&str) -> EntryRead>(
    read: &R,
    names: Seq<Seq<char>>,
    name: Seq<char>,
    reply: Result<Seq<u8>, ReadProblem<Seq<char>>>,
) -> bool {
    match resolved(names, name) {
        Some(path) => exists|p: &str, o: EntryRead| #[trigger]
            read.ensures((p,), o) && p@ == path && reply == entry_outcome(path, entry_view(o)),
        None => reply == Err::<Seq<u8>, _>(ReadProblem::BundleMissing { name }),
    }
}

/// Reads the file `name` of a bundle with these entries.
fn read_file<R: Fn(&str) -> EntryRead>(read: &R, names: &Vec<String>, name: &str) -> (r: Reply)
    requires
        forall|path: &str| #[trigger] read.requires((path,)),
    ensures
        bundle_answers(read, texts(names@), name@, reply_view(r)),
{
    match resolve(names, name) {
        Some(path) => entry_reply(path, read(path)),
        None => Err(ReadProblem::BundleMissing { name: name.to_owned() }),
    }
}

/// Whether reading a bundle may end with `r`, where `may_answer` says how requests
/// for its files may be answered: `meta.json` is found first, then the unit is
/// read.
pub open spec fn bundle_reads<P: FnOnce(&[u8]) -> Result<SogMeta, String>>(
    parse: P,
    may_answer: spec_fn(Seq<char>, Result<Seq<u8>, ReadProblem<Seq<char>>>) -> bool,
    r: Result<PlanarGaussian3d, ReadError>,
) -> bool {
    exists|meta_file: Result<Seq<u8>, ReadProblem<Seq<char>>>| #[trigger]
        may_answer("meta.json"@, meta_file) && match meta_file {
            Err(e) => r is Err && r->Err_0@ == e,
            Ok(content) => unit_content_reads(parse, content, may_answer, r),
        }
}

/// Whether reading a unit whose `meta.json` has this content may end with `r`.
pub open spec fn unit_content_reads<P: FnOnce(&[u8]) -> Result<SogMeta, String>>(
    parse: P,
    content: Seq<u8>,
    may_answer: spec_fn(Seq<char>, Result<Seq<u8>, ReadProblem<Seq<char>>>) -> bool,
    r: Result<PlanarGaussian3d, ReadError>,
) -> bool {
    exists|meta_bytes: &[u8]| #[trigger]
        unit_reads(parse, meta_bytes, may_answer, r) && meta_bytes@ == content
}

/// The answers of files: each request is answered by the file of that name.
pub open spec fn answered_by(
    files: spec_fn(Seq<char>) -> Result<Seq<u8>, ReadProblem<Seq<char>>>,
) -> spec_fn(Seq<char>, Result<Seq<u8>, ReadProblem<Seq<char>>>) -> bool {
    |name: Seq<char>, reply: Result<Seq<u8>, ReadProblem<Seq<char>>>| reply == files(name)
}

/// The files of an archive with these entries.
pub open spec fn files_of(bytes: Seq<u8>, names: Seq<Seq<char>>) -> spec_fn(Seq<char>) -> Result<
    Seq<u8>,
    ReadProblem<Seq<char>>,
> {
    |name: Seq<char>| bundle_file(bytes, names, name)
}

/// Whether reading the bundle `bytes` may end with `r`.
pub open spec fn is_bundle_outcome<P: FnOnce(&[u8]) -> Result<SogMeta, String>>(
    bytes: Seq<u8>,
    parse: P,
    r: Result<PlanarGaussian3d, ReadError>,
) -> bool {
    match zip_names(bytes) {
        Err(reason) => r is Err && r->Err_0@ == (ReadProblem::BundleOpen { reason }),
        Ok(names) => bundle_reads(parse, answered_by(files_of(bytes, names)), r),
    }
}

/// Whether a unit that `parse` makes of any bytes asks for these names only.
pub open spec fn asks_only<P: FnOnce(&[u8]) -> Result<SogMeta, String>>(
    parse: P,
    asked: spec_fn(Seq<char>) -> bool,
) -> bool {
    forall|b: &[u8], meta: SogMeta, k: int|
        #![trigger parse.ensures((b,), Ok(meta)), meta.requested()[k]]
        parse.ensures((b,), Ok(meta)) && meta.version == 2 && 0 <= k < meta.requested().len()
            ==> asked(meta.requested()[k])
}

/// What may come of reading a unit can only grow with the answers to what it asks
/// for.
proof fn lemma_more_for_unit<P: FnOnce(&[u8]) -> Result<SogMeta, String>>(
    parse: P,
    meta_bytes: &[u8],
    asked: spec_fn(Seq<char>) -> bool,
    few: spec_fn(Seq<char>, Result<Seq<u8>, ReadProblem<Seq<char>>>) -> bool,
    more: spec_fn(Seq<char>, Result<Seq<u8>, ReadProblem<Seq<char>>>) -> bool,
    r: Result<PlanarGaussian3d, ReadError>,
)
    requires
        unit_reads(parse, meta_bytes, few, r),
        asks_only(parse, asked),
        forall|name: Seq<char>, reply: Result<Seq<u8>, ReadProblem<Seq<char>>>|
            asked(name) && few(name, reply) ==> #[trigger] more(name, reply),
    ensures
        unit_reads(parse, meta_bytes, more, r),
{
    let parsed = choose|parsed: Result<SogMeta, String>| #[trigger]
        parse.ensures((meta_bytes,), parsed) && match checked_meta(parsed) {
            Err(e) => r is Err && r->Err_0@ == e,
            Ok(meta) => exists|replies: Seq<Result<Seq<u8>, ReadProblem<Seq<char>>>>| #[trigger]
                meta.reads(replies, r) && replies.len() <= meta.requested().len() && forall|k: int|
                    0 <= k < replies.len() ==> few(meta.requested()[k], #[trigger] replies[k]),
        };
    if checked_meta(parsed) is Ok {
        let meta = checked_meta(parsed)->Ok_0;
        assert(parsed == Ok::<SogMeta, String>(meta));
        let replies = choose|replies: Seq<Result<Seq<u8>, ReadProblem<Seq<char>>>>| #[trigger]
            meta.reads(replies, r) && replies.len() <= meta.requested().len() && forall|k: int|
                0 <= k < replies.len() ==> few(meta.requested()[k], #[trigger] replies[k]);
        assert forall|k: int| 0 <= k < replies.len() implies more(
            meta.requested()[k],
            #[trigger] replies[k],
        ) by {
            assert(asked(meta.requested()[k]));
        }
        assert(meta.reads(replies, r));
    }
}

/// What may come of reading a bundle can only grow with the answers to what is
/// asked for.
proof fn lemma_more_answers<P: FnOnce(&[u8]) -> Result<SogMeta, String>>(
    parse: P,
    asked: spec_fn(Seq<char>) -> bool,
    few: spec_fn(Seq<char>, Result<Seq<u8>, ReadProblem<Seq<char>>>) -> bool,
    more: spec_fn(Seq<char>, Result<Seq<u8>, ReadProblem<Seq<char>>>) -> bool,
    r: Result<PlanarGaussian3d, ReadError>,
)
    requires
        bundle_reads(parse, few, r),
        asked("meta.json"@),
        asks_only(parse, asked),
        forall|name: Seq<char>, reply: Result<Seq<u8>, ReadProblem<Seq<char>>>|
            asked(name) && few(name, reply) ==> #[trigger] more(name, reply),
    ensures
        bundle_reads(parse, more, r),
{
    let meta_file = choose|meta_file: Result<Seq<u8>, ReadProblem<Seq<char>>>| #[trigger]
        few("meta.json"@, meta_file) && match meta_file {
            Err(e) => r is Err && r->Err_0@ == e,
            Ok(content) => unit_content_reads(parse, content, few, r),
        };
    assert(more("meta.json"@, meta_file));
    if meta_file is Ok {
        let meta_bytes = choose|meta_bytes: &[u8]| #[trigger]
            unit_reads(parse, meta_bytes, few, r) && meta_bytes@ == meta_file->Ok_0;
        lemma_more_for_unit(parse, meta_bytes, asked, few, more, r);
        assert(unit_content_reads(parse, meta_file->Ok_0, more, r));
    }
}

/// Reads the unit of a bundle, given the listing of its entries and a reader
/// for them.
pub fn parse_listed_bundle<
    P: FnOnce(&[u8]) -> Result<SogMeta, String>,
    R: Fn(&str) -> EntryRead,
>(listing: Result<Vec<String>, String>, read: R, parse: P) -> (r: Result<
    PlanarGaussian3d,
    ReadError,
>)
    requires
        forall|path: &str| #[trigger] read.requires((path,)),
        forall|bytes: &[u8]| #[trigger] parse.requires((bytes,)),
        forall|bytes: &[u8], meta: SogMeta| #[trigger]
            parse.ensures((bytes,), Ok(meta)) && meta.version == 2 ==> meta.lists_textures(),
    ensures
        match listing_view(listing) {
            Err(reason) => r is Err && r->Err_0@ == (ReadProblem::BundleOpen { reason }),
            Ok(names) => bundle_reads(
                parse,
                |name: Seq<char>, reply: Result<Seq<u8>, ReadProblem<Seq<char>>>|
                    bundle_answers(&read, names, name, reply),
                r,
            ),
        },
{
    let names = match listing {
        Ok(names) => names,
        Err(reason) => {
            return Err(ReadProblem::BundleOpen { reason });
        },
    };
    let ghost may_answer = |name: Seq<char>, reply: Result<Seq<u8>, ReadProblem<Seq<char>>>|
        bundle_answers(&read, texts(names@), name, reply);
    let meta_file = read_file(&read, &names, "meta.json");
    assert(may_answer("meta.json"@, reply_view(meta_file)));
    let meta_bytes = match meta_file {
        Ok(meta_bytes) => meta_bytes,
        Err(e) => {
            return Err(e);
        },
    };
    let fetch = |name: &str| -> (reply: Reply)
        ensures
            bundle_answers(&read, texts(names@), name@, reply_view(reply)),
        { read_file(&read, &names, name) };
    let content = meta_bytes.as_slice();
    let cloud = parse_sog(content, parse, fetch);
    proof {
        let fetched = |name: Seq<char>, reply: Result<Seq<u8>, ReadProblem<Seq<char>>>|
            answers(fetch, name, reply);
        lemma_more_for_unit(parse, content, |name: Seq<char>| true, fetched, may_answer, cloud);
        assert(unit_content_reads(parse, meta_bytes@, may_answer, cloud));
    }
    cloud
}

/// Reads the unit of a bundled `.sog`, whose files may lie under a common
/// directory.
pub fn parse_sog_bundle<P: FnOnce(&[u8]) -> Result<SogMeta, String>>(bytes: &[u8], parse: P) -> (r:
    Result<PlanarGaussian3d, ReadError>)
    requires
        forall|b: &[u8]| #[trigger] parse.requires((b,)),
        forall|b: &[u8], meta: SogMeta| #[trigger]
            parse.ensures((b,), Ok(meta)) && meta.version == 2 ==> meta.lists_textures(),
    ensures
        is_bundle_outcome(bytes@, parse, r),
{
    let read = |path: &str| -> (o: EntryRead)
        ensures
            entry_view(o) == zip_entry(bytes@, path@),
        { read_archive(bytes, path) };
    let listing = list_archive(bytes);
    let cloud = parse_listed_bundle(listing, read, parse);
    proof {
        if zip_names(bytes@) is Ok {
            let names = zip_names(bytes@)->Ok_0;
            let may_answer = |name: Seq<char>, reply: Result<Seq<u8>, ReadProblem<Seq<char>>>|
                bundle_answers(&read, names, name, reply);
            let answered = answered_by(files_of(bytes@, names));
            lemma_more_answers(parse, |name: Seq<char>| true, may_answer, answered, cloud);
        }
    }
    cloud
}

/// A bundle that holds a file, at the top or under any directory, answers for
/// it with an entry that is that file.
pub proof fn files_are_found_under_any_directory(
    names: Seq<Seq<char>>,
    dir: Seq<char>,
    name: Seq<char>,
)
    requires
        names.contains(name) || names.contains(under(dir, name)),
    ensures
        resolved(names, name) matches Some(path) && is_file(path, name),
    decreases names.len(),
{
    let path = under(dir, name);
    assert(path.subrange(dir.len() as int, path.len() as int) =~= seq!['/'] + name);
    assert(is_file(path, name));
    if !is_file(names[0], name) {
        let wanted = if names.contains(name) {
            name
        } else {
            path
        };
        let k = choose|k: int| 0 <= k < names.len() && names[k] == wanted;
        assert(names.drop_first()[k - 1] == wanted);
        files_are_found_under_any_directory(names.drop_first(), dir, name);
    }
}

/// Whether a name is that of a file, without any directory.
pub open spec fn is_plain(name: Seq<char>) -> bool {
    !name.contains('/')
}

/// Under a directory an entry is the file `name` exactly if it was without.
proof fn lemma_is_file_under(dir: Seq<char>, entry: Seq<char>, name: Seq<char>)
    requires
        is_plain(name),
    ensures
        is_file(under(dir, entry), name) <==> is_file(entry, name),
{
    let path = under(dir, entry);
    let tail = seq!['/'] + name;
    assert(path[dir.len() as int] == '/');
    if path == name {
        assert(name[dir.len() as int] == '/');
        assert(name.contains('/'));
    }
    if entry == name {
        assert(path.subrange(path.len() - tail.len(), path.len() as int) =~= tail);
    }
    if ends_with(entry, tail) {
        assert(path.subrange(path.len() - tail.len(), path.len() as int) =~= entry.subrange(
            entry.len() - tail.len(),
            entry.len() as int,
        ));
    }
    if ends_with(path, tail) {
        let from = path.len() - tail.len();
        let end = path.subrange(from, path.len() as int);
        assert(end == tail);
        if tail.len() <= entry.len() {
            assert(entry.subrange(entry.len() - tail.len(), entry.len() as int) =~= end);
        } else if tail.len() == entry.len() + 1 {
            assert forall|i: int| 0 <= i < entry.len() implies entry[i] == name[i] by {
                assert(entry[i] == path[from + 1 + i]);
                assert(end[1 + i] == tail[1 + i]);
            }
            assert(entry =~= name);
        } else {
            let at = dir.len() - from;
            assert(end[at] == '/');
            assert(tail[at] == name[at - 1]);
            assert(name.contains('/'));
        }
    }
}

/// A common directory changes nothing: the file `name` is found under it exactly
/// if it was found without, and it is the same entry.
pub proof fn common_directory_keeps_what_is_found(
    names: Seq<Seq<char>>,
    dir: Seq<char>,
    name: Seq<char>,
)
    requires
        is_plain(name),
    ensures
        resolved(names.map_values(|n: Seq<char>| under(dir, n)), name) == (match resolved(
            names,
            name,
        ) {
            Some(path) => Some(under(dir, path)),
            None => None,
        }),
    decreases names.len(),
{
    let moved = names.map_values(|n: Seq<char>| under(dir, n));
    if names.len() > 0 {
        lemma_is_file_under(dir, names[0], name);
        assert(moved.drop_first() =~= names.drop_first().map_values(
            |n: Seq<char>| under(dir, n),
        ));
        common_directory_keeps_what_is_found(names.drop_first(), dir, name);
    }
}

/// What is found is an entry.
proof fn lemma_found_is_entry(names: Seq<Seq<char>>, name: Seq<char>)
    requires
        resolved(names, name) is Some,
    ensures
        names.contains(resolved(names, name)->0),
    decreases names.len(),
{
    if !is_file(names[0], name) {
        lemma_found_is_entry(names.drop_first(), name);
        let k = choose|k: int|
            0 <= k < names.drop_first().len() && names.drop_first()[k] == resolved(names, name)->0;
        assert(names[k + 1] == resolved(names, name)->0);
    } else {
        assert(names[0] == resolved(names, name)->0);
    }
}

/// A bundle reads as the unit of its files: it is what reading the unit gives with
/// the content of its `meta.json` and every request answered by its files.
pub proof fn bundles_read_as_their_files<P: FnOnce(&[u8]) -> Result<SogMeta, String>>(
    bytes: Seq<u8>,
    names: Seq<Seq<char>>,
    parse: P,
    r: Result<PlanarGaussian3d, ReadError>,
)
    requires
        zip_names(bytes) == Ok::<Seq<Seq<char>>, Seq<char>>(names),
    ensures
        is_bundle_outcome(bytes, parse, r) <==> match bundle_file(bytes, names, "meta.json"@) {
            Err(e) => r is Err && r->Err_0@ == e,
            Ok(content) => exists|meta_bytes: &[u8]| #[trigger]
                unit_reads(parse, meta_bytes, answered_by(files_of(bytes, names)), r) && meta_bytes@
                    == content,
        },
{
    let may_answer = answered_by(files_of(bytes, names));
    let meta_file = bundle_file(bytes, names, "meta.json"@);
    assert(may_answer("meta.json"@, meta_file));
    if meta_file is Ok {
        assert(unit_content_reads(parse, meta_file->Ok_0, may_answer, r) <==> exists|
            meta_bytes: &[u8],
        | #[trigger] unit_reads(parse, meta_bytes, may_answer, r) && meta_bytes@
            == meta_file->Ok_0);
    }
}

/// Two bundles whose files are the same read the same, whatever their entries are
/// called and in whatever order they come: `asked` are the names that count.
pub proof fn bundles_with_the_same_files_read_the_same<
    P: FnOnce(&[u8]) -> Result<SogMeta, String>,
>(
    one: Seq<u8>,
    one_names: Seq<Seq<char>>,
    other: Seq<u8>,
    other_names: Seq<Seq<char>>,
    parse: P,
    asked: spec_fn(Seq<char>) -> bool,
    r: Result<PlanarGaussian3d, ReadError>,
)
    requires
        zip_names(one) == Ok::<Seq<Seq<char>>, Seq<char>>(one_names),
        zip_names(other) == Ok::<Seq<Seq<char>>, Seq<char>>(other_names),
        asked("meta.json"@),
        asks_only(parse, asked),
        forall|name: Seq<char>| #[trigger]
            asked(name) ==> bundle_file(one, one_names, name) == bundle_file(
                other,
                other_names,
                name,
            ),
    ensures
        is_bundle_outcome(one, parse, r) <==> is_bundle_outcome(other, parse, r),
{
    let first = answered_by(files_of(one, one_names));
    let second = answered_by(files_of(other, other_names));
    assert forall|name: Seq<char>, reply: Result<Seq<u8>, ReadProblem<Seq<char>>>|
        asked(name) && first(name, reply) implies #[trigger] second(name, reply) by {}
    assert forall|name: Seq<char>, reply: Result<Seq<u8>, ReadProblem<Seq<char>>>|
        asked(name) && second(name, reply) implies #[trigger] first(name, reply) by {}
    if bundle_reads(parse, first, r) {
        lemma_more_answers(parse, asked, first, second, r);
    }
    if bundle_reads(parse, second, r) {
        lemma_more_answers(parse, asked, second, first, r);
    }
}

/// Putting all files of a bundle under one directory, or taking them out of it,
/// does not change what is read, where entries can be opened and textures are
/// named without directories.
pub proof fn common_directory_keeps_what_is_read<P: FnOnce(&[u8]) -> Result<SogMeta, String>>(
    flat: Seq<u8>,
    nested: Seq<u8>,
    names: Seq<Seq<char>>,
    dir: Seq<char>,
    parse: P,
    r: Result<PlanarGaussian3d, ReadError>,
)
    requires
        zip_names(flat) == Ok::<Seq<Seq<char>>, Seq<char>>(names),
        zip_names(nested) == Ok::<Seq<Seq<char>>, Seq<char>>(
            names.map_values(|n: Seq<char>| under(dir, n)),
        ),
        forall|path: Seq<char>| #[trigger]
            names.contains(path) ==> zip_entry(flat, path) is Ok && zip_entry(
                nested,
                under(dir, path),
            ) == zip_entry(flat, path),
        asks_only(parse, |name: Seq<char>| is_plain(name)),
    ensures
        is_bundle_outcome(flat, parse, r) <==> is_bundle_outcome(nested, parse, r),
{
    let asked = |name: Seq<char>| is_plain(name);
    let moved = names.map_values(|n: Seq<char>| under(dir, n));
    reveal_strlit("meta.json");
    assert(asked("meta.json"@));
    assert forall|name: Seq<char>| #[trigger] asked(name) implies bundle_file(flat, names, name)
        == bundle_file(nested, moved, name) by {
        common_directory_keeps_what_is_found(names, dir, name);
        if resolved(names, name) is Some {
            lemma_found_is_entry(names, name);
        }
    }
    bundles_with_the_same_files_read_the_same(flat, names, nested, moved, parse, asked, r);
}

/// A bundle without `meta.json` is invalid data.
pub proof fn bundles_need_meta_json<P: FnOnce(&[u8]) -> Result<SogMeta, String>>(
    bytes: Seq<u8>,
    names: Seq<Seq<char>>,
    parse: P,
    r: Result<PlanarGaussian3d, ReadError>,
)
    requires
        zip_names(bytes) == Ok::<Seq<Seq<char>>, Seq<char>>(names),
        resolved(names, "meta.json"@) is None,
        is_bundle_outcome(bytes, parse, r),
    ensures
        r is Err,
        r->Err_0.spec_invalid_data(),
{
    bundles_read_as_their_files(bytes, names, parse, r);
}

/// A bundle without a texture that its unit asks for is invalid data, where the
/// entries that are there can be read.
pub proof fn bundles_need_every_texture<P: FnOnce(&[u8]) -> Result<SogMeta, String>>(
    bytes: Seq<u8>,
    names: Seq<Seq<char>>,
    parse: P,
    meta: SogMeta,
    k: int,
    r: Result<PlanarGaussian3d, ReadError>,
)
    requires
        zip_names(bytes) == Ok::<Seq<Seq<char>>, Seq<char>>(names),
        forall|path: Seq<char>| #[trigger]
            names.contains(path) ==> zip_entry(bytes, path) is Ok && zip_entry(bytes, path)->Ok_0
                is Ok,
        forall|b: &[u8], parsed: Result<SogMeta, String>| #[trigger]
            parse.ensures((b,), parsed) && bundle_file(bytes, names, "meta.json"@) == Ok::<
                Seq<u8>,
                ReadProblem<Seq<char>>,
            >(b@) ==> parsed == Ok::<SogMeta, String>(meta),
        0 <= k < meta.requested().len(),
        resolved(names, meta.requested()[k]) is None,
        is_bundle_outcome(bytes, parse, r),
    ensures
        r is Err,
        r->Err_0.spec_invalid_data(),
{
    let may_answer = answered_by(files_of(bytes, names));
    bundles_read_as_their_files(bytes, names, parse, r);
    let meta_file = bundle_file(bytes, names, "meta.json"@);
    if resolved(names, "meta.json"@) is Some {
        lemma_found_is_entry(names, "meta.json"@);
    }
    if meta_file is Ok {
        let meta_bytes = choose|meta_bytes: &[u8]| #[trigger]
            unit_reads(parse, meta_bytes, may_answer, r) && meta_bytes@ == meta_file->Ok_0;
        assert(unit_reads(parse, meta_bytes, may_answer, r));
        if meta.version == 2 {
            let replies = choose|replies: Seq<Result<Seq<u8>, ReadProblem<Seq<char>>>>| #[trigger]
                meta.reads(replies, r) && replies.len() <= meta.requested().len() && forall|j: int|
                    0 <= j < replies.len() ==> may_answer(
                        meta.requested()[j],
                        #[trigger] replies[j],
                    );
            let t = choose|t: Result<SogTextures, ReadError>| #[trigger]
                meta.loads(replies, t) && match t {
                    Ok(textures) => r is Ok && meta.is_whole(textures, r->Ok_0),
                    Err(e) => r is Err && r->Err_0@ == e@,
                };
            assert(meta.loads(replies, t));
            assert forall|j: int| 0 <= j < replies.len() implies (#[trigger] meta.image(
                replies,
                j,
            ) matches Err(e) ==> blames_data(e)) && (j == k ==> meta.image(replies, j) is Err) by {
                assert(may_answer(meta.requested()[j], replies[j]));
                if resolved(names, meta.requested()[j]) is Some {
                    lemma_found_is_entry(names, meta.requested()[j]);
                }
            }
            if t is Ok {
                assert(replies.len() == meta.requested().len());
                assert(meta.image(replies, k) is Err);
                assert(k < 5 ==> meta.roomy(replies, k));
            }
        }
    }
}

/// An entry is a file exactly if it has the file's name, or ends with a slash and
/// the name behind some directory.
pub proof fn files_lie_in_directories(entry: Seq<char>, name: Seq<char>)
    ensures
        is_file(entry, name) <==> entry == name || exists|dir: Seq<char>|
            entry == #[trigger] under(dir, name),
{
    let tail = seq!['/'] + name;
    if ends_with(entry, tail) {
        let dir = entry.subrange(0, entry.len() - tail.len());
        assert(entry =~= under(dir, name)) by {
            assert forall|k: int| 0 <= k < entry.len() implies entry[k] == under(dir, name)[k] by {
                if k >= dir.len() {
                    assert(entry.subrange(entry.len() - tail.len(), entry.len() as int)[k
                        - dir.len()] == entry[k]);
                }
            }
        }
    }
    if exists|dir: Seq<char>| entry == #[trigger] under(dir, name) {
        let dir = choose|dir: Seq<char>| entry == #[trigger] under(dir, name);
        assert(entry.subrange(entry.len() - tail.len(), entry.len() as int) =~= tail);
    }
}

/// The first entry that is a file answers for it, whatever comes behind; a file that
/// no entry is, is missing, by its own name.
pub proof fn the_first_entry_answers(
    bytes: Seq<u8>,
    names: Seq<Seq<char>>,
    name: Seq<char>,
    k: int,
)
    requires
        0 <= k <= names.len(),
        forall|j: int| 0 <= j < k ==> !is_file(#[trigger] names[j], name),
        k < names.len() ==> is_file(names[k], name),
    ensures
        k < names.len() ==> resolved(names, name) == Some(names[k]),
        k == names.len() ==> resolved(names, name) is None,
        k == names.len() ==> bundle_file(bytes, names, name) == Err::<
            Seq<u8>,
            ReadProblem<Seq<char>>,
        >(ReadProblem::BundleMissing { name }),
        k < names.len() ==> match zip_entry(bytes, names[k]) {
            Ok(Ok(content)) => bundle_file(bytes, names, name) == Ok::<
                Seq<u8>,
                ReadProblem<Seq<char>>,
            >(content),
            Ok(Err((invalid_data, reason))) => bundle_file(bytes, names, name) == Err::<
                Seq<u8>,
                ReadProblem<Seq<char>>,
            >(ReadProblem::Io { reason, invalid_data }),
            Err(reason) => bundle_file(bytes, names, name) == Err::<
                Seq<u8>,
                ReadProblem<Seq<char>>,
            >(ReadProblem::BundleEntry { path: names[k], reason }),
        },
    decreases names.len(),
{
    if names.len() > 0 && k > 0 {
        assert(!is_file(names[0], name));
        let rest = names.drop_first();
        assert forall|j: int| 0 <= j < k - 1 implies !is_file(#[trigger] rest[j], name) by {
            assert(names[j + 1] == rest[j]);
        }
        if k < names.len() {
            assert(rest[k - 1] == names[k]);
        }
        the_first_entry_answers(bytes, rest, name, k - 1);
    }
}

} // verus!
