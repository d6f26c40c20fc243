//! Finding sessions: one directory per session, named by the session's own id, in a bucket
//! per working directory.

use vstd::prelude::*;
use crate::host::{
    hex_digit, id_char, is_uuid, lemma_id_is_one_step, lemma_uuid_characters, uuid_shaped,
    valid_session_id, validate_session_id, HostError,
};
use crate::pi::{bucket_name, encoded_dir};
use crate::ranking::{in_order, Ranking};
use crate::text::{
    chars_of, lemma_first_piece, lemma_pieces_append, lemma_pieces_concat, optional_text, pieces,
    split, string_of, texts,
};
use crate::transcript::{holds_a_reply, reply_bytes};

verus! {

/// The steps of a path: what stands between its slashes, without empty steps and dots.
pub open spec fn steps(path: Seq<char>) -> Seq<Seq<char>> {
    pieces(path, '/').filter(|step: Seq<char>| step.len() > 0 && step != "."@)
}

fn path_steps(path: &str) -> (names: Vec<String>)
    ensures
        texts(names@) == steps(path@),
{
    let parts = split(path, '/');
    let ghost all = texts(parts@);
    let ghost kept = |step: Seq<char>| step.len() > 0 && step != "."@;
    let mut names: Vec<String> = Vec::new();
    let mut i: usize = 0;
    proof {
        reveal(Seq::filter);
        assert(all.take(0).filter(kept) == Seq::<Seq<char>>::empty());
    }
    while i < parts.len()
        invariant
            i <= parts.len(),
            all == texts(parts@),
            kept == (|step: Seq<char>| step.len() > 0 && step != "."@),
            texts(names@) == all.take(i as int).filter(kept),
        decreases parts.len() - i,
    {
        let ghost before = texts(names@);
        assert(all[i as int] == parts@[i as int]@);
        proof {
            reveal(Seq::filter);
            assert(all.take(i + 1).drop_last() == all.take(i as int));
        }
        let part = parts[i].as_str();
        if !part.is_empty() && *part != *"." {
            names.push(parts[i].clone());
            assert(texts(names@) == before.push(all[i as int]));
        }
        i += 1;
    }
    assert(all.take(i as int) == all);
    names
}

/// The part of a directory's name that has to be a UUID: all of it, or what stands behind
/// `session-`.
pub open spec fn uuid_part(name: Seq<char>) -> Seq<char> {
    if "session-"@.is_prefix_of(name) {
        name.skip(8)
    } else {
        name
    }
}

/// The name of the directory that `path` lies in.
pub open spec fn directory_of(path: Seq<char>) -> Option<Seq<char>> {
    let names = steps(path);
    if names.len() >= 2 {
        Some(names[names.len() - 2])
    } else {
        None
    }
}

/// The id that the directory of a transcript gives to its session.
pub open spec fn id_in_path(transcript: Seq<char>) -> Option<Seq<char>> {
    match directory_of(transcript) {
        Some(name) => if uuid_shaped(uuid_part(name)) {
            Some(name)
        } else {
            None
        },
        None => None,
    }
}

fn uuid_part_of(name: &str) -> (part: String)
    ensures
        part@ == uuid_part(name@),
{
    let chars = chars_of(name);
    let prefix = chars_of("session-");
    proof {
        reveal_strlit("session-");
    }
    if chars.len() < 8 {
        return string_of(&chars, 0, chars.len());
    }
    let mut i: usize = 0;
    while i < 8
        invariant
            i <= 8 == prefix.len(),
            8 <= chars.len(),
            chars@ == name@,
            prefix@ == "session-"@,
            forall|k: int| 0 <= k < i ==> chars@[k] == prefix@[k],
        decreases 8 - i,
    {
        if chars[i] != prefix[i] {
            assert(!"session-"@.is_prefix_of(name@)) by {
                assert(name@.take(8)[i as int] == chars@[i as int]);
            }
            let whole = string_of(&chars, 0, chars.len());
            assert(whole@ == name@);
            return whole;
        }
        i += 1;
    }
    assert("session-"@ == name@.take(8));
    string_of(&chars, 8, chars.len())
}

/// The session id that the directory of `transcript` carries, verbatim: a UUID, or `session-`
/// and a UUID. Any other directory names no session. The path is one with slashes between its
/// steps.
pub fn session_id(transcript: &str) -> (id: Option<String>)
    ensures
        optional_text(id) == id_in_path(transcript@),
{
    let names = path_steps(transcript);
    let n = names.len();
    assert(steps(transcript@).len() == n);
    if n < 2 {
        return None;
    }
    assert(texts(names@)[n - 2] == names@[n - 2]@);
    if is_uuid(uuid_part_of(names[n - 2].as_str()).as_str()) {
        Some(names[n - 2].clone())
    } else {
        None
    }
}

/// The session file names `dsh` has used, newest scheme first.
pub const SESSION_FILES: [&'static str; 2] = ["session.v3.jsonl.zstd", "session.jsonl.zstd"];

/// One entry of a directory.
#[derive(Debug)]
pub struct DirEntry {
    /// The name, in the platform's own encoding.
    pub name: Vec<u8>,
    pub is_dir: bool,
}

/// A session file: which entry of a directory it lies in, and under which of
/// `SESSION_FILES`.
#[derive(Clone, Copy, Debug, PartialEq, Eq, Structural)]
pub struct SessionFile {
    pub entry: usize,
    pub file: usize,
}

/// What is known of the session directory that an entry of a bucket may be.
#[derive(Debug)]
pub struct Reading {
    /// For each of `SESSION_FILES`, whether the directory holds a file of that name.
    pub is_file: [bool; 2],
    /// When the session file was last written, in nanoseconds since 1970.
    pub modified: u64,
    /// What the session file holds, where it could be read.
    pub transcript: Option<Vec<u8>>,
}

/// The first of the session file names under which there is a file.
pub open spec fn first_file(is_file: Seq<bool>) -> Option<usize> {
    if is_file[0] {
        Some(0)
    } else if is_file[1] {
        Some(1)
    } else {
        None
    }
}

/// The session file inside one session directory: the first of `SESSION_FILES` that is a file
/// there.
pub fn session_file_in(is_file: &[bool; 2]) -> (file: Option<usize>)
    ensures
        file == first_file(is_file@),
{
    if is_file[0] {
        Some(0)
    } else if is_file[1] {
        Some(1)
    } else {
        None
    }
}

/// When a file was last written, in nanoseconds since 1970: 0 where that is not known, and
/// reduced to 64 bits where it does not fit.
pub fn modified(age: Option<u128>) -> (nanos: u64)
    ensures
        nanos == match age {
            Some(n) => n % 0x1_0000_0000_0000_0000,
            None => 0,
        },
{
    match age {
        Some(n) => (n % 0x1_0000_0000_0000_0000) as u64,
        None => 0,
    }
}

/// Whether `a` comes before `b` in the dictionary.
pub open spec fn bytes_before(a: Seq<u8>, b: Seq<u8>) -> bool
    decreases a.len(),
{
    if b.len() == 0 {
        false
    } else if a.len() == 0 {
        true
    } else if a[0] != b[0] {
        a[0] < b[0]
    } else {
        bytes_before(a.drop_first(), b.drop_first())
    }
}

proof fn lemma_bytes_transitive(a: Seq<u8>, b: Seq<u8>, c: Seq<u8>)
    requires
        bytes_before(a, b),
        bytes_before(b, c),
    ensures
        bytes_before(a, c),
    decreases a.len(),
{
    if a.len() > 0 && b.len() > 0 && c.len() > 0 && a[0] == b[0] && b[0] == c[0] {
        lemma_bytes_transitive(a.drop_first(), b.drop_first(), c.drop_first());
    }
}

proof fn lemma_bytes_total(a: Seq<u8>, b: Seq<u8>)
    ensures
        a == b || bytes_before(a, b) || bytes_before(b, a),
    decreases a.len(),
{
    if a.len() > 0 && b.len() > 0 && a[0] == b[0] {
        lemma_bytes_total(a.drop_first(), b.drop_first());
        if a.drop_first() == b.drop_first() {
            assert(a == seq![a[0]] + a.drop_first());
            assert(b == seq![b[0]] + b.drop_first());
        }
    } else if a.len() == 0 && b.len() == 0 {
        assert(a == b);
    }
}

fn bytes_come_before(a: &Vec<u8>, b: &Vec<u8>) -> (r: bool)
    ensures
        r == bytes_before(a@, b@),
{
    let mut i: usize = 0;
    assert(a@.skip(0) == a@ && b@.skip(0) == b@);
    while i < a.len() && i < b.len() && a[i] == b[i]
        invariant
            i <= a.len(),
            i <= b.len(),
            bytes_before(a@, b@) == bytes_before(a@.skip(i as int), b@.skip(i as int)),
        decreases a.len() - i,
    {
        assert(a@.skip(i as int).drop_first() == a@.skip(i + 1));
        assert(b@.skip(i as int).drop_first() == b@.skip(i + 1));
        i += 1;
    }
    if i >= b.len() {
        false
    } else if i >= a.len() {
        true
    } else {
        a[i] < b[i]
    }
}

/// Whether the `i`th entry comes before the `j`th by name. Of two equal names the one listed
/// first does.
pub open spec fn name_precedes(entries: Seq<DirEntry>, i: int, j: int) -> bool {
    bytes_before(entries[i].name@, entries[j].name@) || (entries[i].name@ == entries[j].name@ && i
        < j)
}

/// Entries, ranked by name.
struct ByName<'a> {
    entries: &'a Vec<DirEntry>,
}

impl<'a> Ranking for ByName<'a> {
    closed spec fn size(&self) -> nat {
        self.entries@.len()
    }

    closed spec fn before(&self, i: int, j: int) -> bool {
        name_precedes(self.entries@, i, j)
    }

    proof fn before_is_transitive(&self, i: int, j: int, k: int) {
        let a = self.entries@[i].name@;
        let b = self.entries@[j].name@;
        let c = self.entries@[k].name@;
        if bytes_before(a, b) && bytes_before(b, c) {
            lemma_bytes_transitive(a, b, c);
        }
    }

    proof fn before_is_total(&self, i: int, j: int) {
        lemma_bytes_total(self.entries@[i].name@, self.entries@[j].name@);
    }

    fn comes_before(&self, i: usize, j: usize) -> (r: bool) {
        proof {
            lemma_bytes_total(self.entries@[i as int].name@, self.entries@[j as int].name@);
        }
        if bytes_come_before(&self.entries[i].name, &self.entries[j].name) {
            true
        } else if bytes_come_before(&self.entries[j].name, &self.entries[i].name) {
            proof {
                if self.entries@[i as int].name@ == self.entries@[j as int].name@ {
                    lemma_bytes_irreflexive(self.entries@[i as int].name@);
                }
            }
            false
        } else {
            i < j
        }
    }
}

proof fn lemma_bytes_irreflexive(a: Seq<u8>)
    ensures
        !bytes_before(a, a),
    decreases a.len(),
{
    if a.len() > 0 {
        lemma_bytes_irreflexive(a.drop_first());
    }
}

/// Whether `order` lists the directories among `entries`, by name.
pub open spec fn dirs_by_name(entries: Seq<DirEntry>, order: Seq<usize>) -> bool {
    &&& forall|x: usize| #[trigger]
        order.contains(x) <==> x < entries.len() && entries[x as int].is_dir
    &&& forall|i: int, j: int|
        0 <= i < j < order.len() ==> name_precedes(
            entries,
            #[trigger] order[i] as int,
            #[trigger] order[j] as int,
        )
}

/// The directories among `entries`, by name.
pub fn dirs_in_order(entries: &Vec<DirEntry>) -> (order: Vec<usize>)
    ensures
        dirs_by_name(entries@, order@),
{
    let mut dirs: Vec<usize> = Vec::new();
    let mut i: usize = 0;
    while i < entries.len()
        invariant
            i <= entries.len(),
            forall|k: int| 0 <= k < dirs@.len() ==> (#[trigger] dirs@[k]) < i,
            dirs@.no_duplicates(),
            forall|x: usize| #[trigger] dirs@.contains(x) <==> x < i && entries@[x as int].is_dir,
        decreases entries.len() - i,
    {
        let ghost before = dirs@;
        if entries[i].is_dir {
            dirs.push(i);
            assert(dirs@ == before.push(i));
            assert forall|x: usize| #[trigger] dirs@.contains(x) <==> x < i + 1
                && entries@[x as int].is_dir by {
                if before.contains(x) {
                    let k = choose|k: int| 0 <= k < before.len() && before[k] == x;
                    assert(dirs@[k] == x);
                }
                if dirs@.contains(x) && x != i {
                    let k = choose|k: int| 0 <= k < dirs@.len() && dirs@[k] == x;
                    assert(before[k] == x);
                }
                assert(dirs@[before.len() as int] == i);
            }
        }
        i += 1;
    }
    let ranking = ByName { entries };
    let order = in_order(&ranking, &dirs);
    assert forall|i: int, j: int| 0 <= i < j < order@.len() implies name_precedes(
        entries@,
        #[trigger] order@[i] as int,
        #[trigger] order@[j] as int,
    ) by {
        assert(ranking.before(order@[i] as int, order@[j] as int));
    }
    order
}

/// What `probes` say of the `i`th entry; of one that they do not reach, that it holds no
/// session file.
pub open spec fn probe(probes: Seq<[bool; 2]>, i: int) -> Seq<bool> {
    if i < probes.len() {
        probes[i]@
    } else {
        seq![false, false]
    }
}

/// Whether `found` is the session file in the directory that is one of `entries`.
pub open spec fn is_session_file(
    entries: Seq<DirEntry>,
    probes: Seq<[bool; 2]>,
    found: SessionFile,
) -> bool {
    &&& found.entry < entries.len()
    &&& entries[found.entry as int].is_dir
    &&& first_file(probe(probes, found.entry as int)) == Some(found.file)
}

/// Whether `files` lists the session files in the directories among `entries`, in the order of
/// the directories' names.
pub open spec fn files_by_name(
    entries: Seq<DirEntry>,
    probes: Seq<[bool; 2]>,
    files: Seq<SessionFile>,
) -> bool {
    &&& forall|f: SessionFile| #[trigger]
        files.contains(f) <==> is_session_file(entries, probes, f)
    &&& forall|i: int, j: int|
        0 <= i < j < files.len() ==> name_precedes(
            entries,
            (#[trigger] files[i]).entry as int,
            (#[trigger] files[j]).entry as int,
        )
}

fn probed(probes: &Vec<[bool; 2]>, i: usize) -> (is_file: [bool; 2])
    ensures
        is_file@ == probe(probes@, i as int),
{
    if i < probes.len() {
        probes[i]
    } else {
        let none: [bool; 2] = [false, false];
        assert(none@ == seq![false, false]);
        none
    }
}

/// Every session file in a bucket, by the names of the sessions' directories. `probes` says of
/// each entry which of `SESSION_FILES` are files in it.
pub fn session_files(entries: &Vec<DirEntry>, probes: &Vec<[bool; 2]>) -> (files: Vec<SessionFile>)
    ensures
        files_by_name(entries@, probes@, files@),
{
    let dirs = dirs_in_order(entries);
    let mut files: Vec<SessionFile> = Vec::new();
    let mut i: usize = 0;
    while i < dirs.len()
        invariant
            i <= dirs.len(),
            dirs_by_name(entries@, dirs@),
            forall|f: SessionFile| #[trigger]
                files@.contains(f) <==> is_session_file(entries@, probes@, f) && dirs@.take(
                    i as int,
                ).contains(f.entry),
            forall|k: int, l: int|
                0 <= k < l < files@.len() ==> name_precedes(
                    entries@,
                    (#[trigger] files@[k]).entry as int,
                    (#[trigger] files@[l]).entry as int,
                ),
        decreases dirs.len() - i,
    {
        let ghost before = files@;
        let ghost seen = dirs@.take(i as int);
        let ghost next = dirs@.take(i + 1);
        let entry = dirs[i];
        assert(dirs@.contains(entry));
        assert(next == seen.push(entry));
        assert forall|x: usize| #[trigger] next.contains(x) <==> seen.contains(x) || x == entry by {
            if seen.contains(x) {
                let k = choose|k: int| 0 <= k < seen.len() && seen[k] == x;
                assert(next[k] == x);
            }
            if next.contains(x) && x != entry {
                let k = choose|k: int| 0 <= k < next.len() && next[k] == x;
                assert(seen[k] == x);
            }
            assert(next[i as int] == entry);
        }
        match session_file_in(&probed(probes, entry)) {
            Some(file) => {
                let found = SessionFile { entry, file };
                files.push(found);
                assert(files@ == before.push(found));
                assert forall|f: SessionFile| #[trigger]
                    files@.contains(f) <==> is_session_file(entries@, probes@, f)
                        && next.contains(f.entry) by {
                    if before.contains(f) {
                        let k = choose|k: int| 0 <= k < before.len() && before[k] == f;
                        assert(files@[k] == f);
                    }
                    if files@.contains(f) && f != found {
                        let k = choose|k: int| 0 <= k < files@.len() && files@[k] == f;
                        assert(before[k] == f);
                    }
                    assert(files@[before.len() as int] == found);
                }
                assert forall|k: int| 0 <= k < before.len() implies name_precedes(
                    entries@,
                    (#[trigger] before[k]).entry as int,
                    entry as int,
                ) by {
                    assert(before.contains(before[k]));
                    let m = choose|m: int| 0 <= m < seen.len() && seen[m] == before[k].entry;
                    assert(dirs@[m] == before[k].entry);
                    assert(dirs@[i as int] == entry);
                }
            },
            None => {},
        }
        i += 1;
    }
    assert(dirs@.take(i as int) == dirs@);
    files
}

/// Whether the `i`th file was written after the `j`th. Of two written at the same time the one
/// listed first counts as the later.
pub open spec fn written_after(modified: Seq<u64>, i: int, j: int) -> bool {
    modified[i] > modified[j] || (modified[i] == modified[j] && i < j)
}

/// Whether `order` lists all the files, newest first.
pub open spec fn newest_first(modified: Seq<u64>, order: Seq<usize>) -> bool {
    &&& forall|x: usize| #[trigger] order.contains(x) <==> x < modified.len()
    &&& forall|i: int, j: int|
        0 <= i < j < order.len() ==> written_after(
            modified,
            #[trigger] order[i] as int,
            #[trigger] order[j] as int,
        )
}

/// Files, ranked by when they were written.
struct ByAge<'a> {
    modified: &'a Vec<u64>,
}

impl<'a> Ranking for ByAge<'a> {
    closed spec fn size(&self) -> nat {
        self.modified@.len()
    }

    closed spec fn before(&self, i: int, j: int) -> bool {
        written_after(self.modified@, i, j)
    }

    proof fn before_is_transitive(&self, i: int, j: int, k: int) {
    }

    proof fn before_is_total(&self, i: int, j: int) {
    }

    fn comes_before(&self, i: usize, j: usize) -> (r: bool) {
        self.modified[i] > self.modified[j] || (self.modified[i] == self.modified[j] && i < j)
    }
}

/// A search for the newest session that holds a reply. Files are read one at a time, newest
/// first, and none behind the one that is found.
pub struct Search {
    order: Vec<usize>,
    next: usize,
}

impl View for Search {
    type V = Seq<usize>;

    /// The files still to be looked at, in order.
    closed spec fn view(&self) -> Seq<usize> {
        self.order@.skip(self.next as int)
    }
}

impl Search {
    /// Whether the search has not run past its last file.
    #[verifier::type_invariant]
    closed spec fn in_bounds(self) -> bool {
        self.next <= self.order.len()
    }

    /// A search among files that were last written at the times `modified`.
    pub fn over(modified: &Vec<u64>) -> (search: Search)
        ensures
            newest_first(modified@, search@),
            search@.len() == modified@.len(),
            search@.no_duplicates(),
            forall|i: int, j: int|
                0 <= i < j < search@.len() ==> modified@[#[trigger] search@[i] as int]
                    >= modified@[#[trigger] search@[j] as int],
    {
        let mut all: Vec<usize> = Vec::new();
        let mut i: usize = 0;
        while i < modified.len()
            invariant
                i <= modified.len(),
                all@.len() == i,
                forall|k: int| 0 <= k < i ==> #[trigger] all@[k] == k,
            decreases modified.len() - i,
        {
            all.push(i);
            i += 1;
        }
        let ranking = ByAge { modified };
        let order = in_order(&ranking, &all);
        let ghost listed = order@;
        proof {
            assert forall|x: usize| #[trigger] listed.contains(x) <==> x < modified@.len() by {
                if x < modified@.len() {
                    assert(all@[x as int] == x);
                }
            }
            assert forall|i: int, j: int| 0 <= i < j < listed.len() implies written_after(
                modified@,
                #[trigger] listed[i] as int,
                #[trigger] listed[j] as int,
            ) by {
                assert(ranking.before(listed[i] as int, listed[j] as int));
            }
        }
        let search = Search { order, next: 0 };
        assert(search@ == listed);
        proof {
            lemma_newest_first(modified@, listed);
            assert forall|i: int, j: int|
                0 <= i < j < listed.len() implies modified@[#[trigger] listed[i] as int]
                >= modified@[#[trigger] listed[j] as int] by {
                assert(written_after(modified@, listed[i] as int, listed[j] as int));
            }
        }
        search
    }

    /// The file to read next; none where all of them have been looked at.
    pub fn candidate(&self) -> (file: Option<usize>)
        ensures
            file == if self@.len() > 0 {
                Some(self@[0])
            } else {
                None
            },
    {
        proof {
            use_type_invariant(self);
        }
        if self.next < self.order.len() {
            Some(self.order[self.next])
        } else {
            None
        }
    }

    /// Takes what the candidate holds, if it could be read. Whether that is the file searched
    /// for; if not, the search goes on to the next.
    pub fn offer(&mut self, bytes: Option<&Vec<u8>>) -> (accepted: bool)
        requires
            old(self)@.len() > 0,
        ensures
            accepted == (bytes matches Some(b) && reply_bytes(b@)),
            final(self)@ == if accepted {
                old(self)@
            } else {
                old(self)@.drop_first()
            },
    {
        proof {
            use_type_invariant(&*self);
        }
        let accepted = match bytes {
            Some(b) => holds_a_reply(b.as_slice()),
            None => false,
        };
        if !accepted {
            let ghost left = self@;
            self.next = self.next + 1;
            assert(self@ == left.drop_first());
        }
        accepted
    }
}

/// Whether the `i`th of `entries` is the directory of a session that holds a reply.
pub open spec fn replies(entries: Seq<DirEntry>, readings: Seq<Reading>, i: int) -> bool {
    &&& 0 <= i < entries.len()
    &&& i < readings.len()
    &&& entries[i].is_dir
    &&& first_file(readings[i].is_file@) is Some
    &&& readings[i].transcript matches Some(bytes)
    &&& reply_bytes(bytes@)
}

/// Whether the session in the `i`th entry is to be preferred to the one in the `j`th: it was
/// written later, or at the same time and comes first by name.
pub open spec fn preferred(
    entries: Seq<DirEntry>,
    readings: Seq<Reading>,
    i: int,
    j: int,
) -> bool {
    readings[i].modified > readings[j].modified || (readings[i].modified == readings[j].modified
        && name_precedes(entries, i, j))
}

fn all_probes(readings: &Vec<Reading>) -> (probes: Vec<[bool; 2]>)
    ensures
        probes@.len() == readings@.len(),
        forall|i: int| 0 <= i < probes@.len() ==> #[trigger] probes@[i] == readings@[i].is_file,
{
    let mut probes: Vec<[bool; 2]> = Vec::new();
    let mut i: usize = 0;
    while i < readings.len()
        invariant
            i <= readings.len(),
            probes@.len() == i,
            forall|k: int| 0 <= k < i ==> #[trigger] probes@[k] == readings@[k].is_file,
        decreases readings.len() - i,
    {
        probes.push(readings[i].is_file);
        i += 1;
    }
    probes
}

/// The newest session in a bucket that holds a reply. `readings` says of each of the bucket's
/// `entries` what the session directory holds. A session written later that is still empty or
/// only prompted, a subagent's, or a file that does not decode is passed over, not chosen.
pub fn find_transcript(entries: &Vec<DirEntry>, readings: &Vec<Reading>) -> (found: Option<
    SessionFile,
>)
    ensures
        match found {
            Some(f) => {
                &&& replies(entries@, readings@, f.entry as int)
                &&& first_file(readings@[f.entry as int].is_file@) == Some(f.file)
                &&& forall|i: int| #[trigger]
                    replies(entries@, readings@, i) && i != f.entry ==> preferred(
                        entries@,
                        readings@,
                        f.entry as int,
                        i,
                    )
                &&& forall|i: int| #[trigger]
                    replies(entries@, readings@, i) ==> readings@[f.entry as int].modified
                        >= readings@[i].modified
            },
            None => forall|i: int| !#[trigger] replies(entries@, readings@, i),
        },
{
    let probes = all_probes(readings);
    let files = session_files(entries, &probes);
    let mut times: Vec<u64> = Vec::new();
    let mut i: usize = 0;
    while i < files.len()
        invariant
            i <= files.len(),
            files_by_name(entries@, probes@, files@),
            probes@.len() == readings@.len(),
            times@.len() == i,
            forall|k: int|
                0 <= k < i ==> #[trigger] times@[k] == readings@[files@[k].entry as int].modified,
        decreases files.len() - i,
    {
        let file = files[i];
        assert(files@.contains(file));
        times.push(readings[file.entry].modified);
        i += 1;
    }
    let mut search = Search::over(&times);
    let ghost order = search@;
    let ghost mut passed: int = 0;
    assert(order.skip(0) == order);
    assert(times.len() <= usize::MAX && entries.len() <= usize::MAX);
    loop
        invariant
            0 <= passed <= order.len(),
            search@ == order.skip(passed),
            newest_first(times@, order),
            files_by_name(entries@, probes@, files@),
            times@.len() <= usize::MAX,
            entries@.len() <= usize::MAX,
            probes@.len() == readings@.len(),
            forall|k: int| 0 <= k < probes@.len() ==> #[trigger] probes@[k] == readings@[k].is_file,
            times@.len() == files@.len(),
            forall|k: int|
                0 <= k < files@.len() ==> #[trigger] times@[k]
                    == readings@[files@[k].entry as int].modified,
            forall|k: int|
                0 <= k < passed ==> !replies(
                    entries@,
                    readings@,
                    files@[#[trigger] order[k] as int].entry as int,
                ),
        decreases order.len() - passed,
    {
        let index = match search.candidate() {
            Some(index) => index,
            None => {
                assert forall|e: int| !#[trigger] replies(entries@, readings@, e) by {
                    if replies(entries@, readings@, e) {
                        lemma_listed(entries@, readings@, probes@, files@, order, times@, e);
                    }
                }
                return None;
            },
        };
        assert(order[passed] == index);
        assert(order.contains(index));
        let file = files[index];
        assert(files@.contains(file));
        let accepted = match &readings[file.entry].transcript {
            Some(bytes) => search.offer(Some(bytes)),
            None => search.offer(None),
        };
        if accepted {
            assert forall|e: int| #[trigger]
                replies(entries@, readings@, e) && e != file.entry implies preferred(
                entries@,
                readings@,
                file.entry as int,
                e,
            ) by {
                let m = lemma_listed(entries@, readings@, probes@, files@, order, times@, e);
                assert(m != passed);
                assert(m > passed);
                let other = order[m] as int;
                assert(written_after(times@, order[passed] as int, order[m] as int));
                assert(times@[index as int] == readings@[file.entry as int].modified);
                assert(times@[other] == readings@[e].modified);
                if index < other {
                    assert(name_precedes(
                        entries@,
                        files@[index as int].entry as int,
                        files@[other].entry as int,
                    ));
                }
            }
            return Some(file);
        }
        proof {
            passed = passed + 1;
        }
        assert(order.skip(passed - 1).drop_first() == order.skip(passed));
    }
}

/// Where in the order of a search an entry with a reply stands.
proof fn lemma_listed(
    entries: Seq<DirEntry>,
    readings: Seq<Reading>,
    probes: Seq<[bool; 2]>,
    files: Seq<SessionFile>,
    order: Seq<usize>,
    times: Seq<u64>,
    entry: int,
) -> (place: int)
    requires
        newest_first(times, order),
        files_by_name(entries, probes, files),
        probes.len() == readings.len(),
        forall|k: int| 0 <= k < probes.len() ==> #[trigger] probes[k] == readings[k].is_file,
        times.len() == files.len(),
        times.len() <= usize::MAX,
        entries.len() <= usize::MAX,
        replies(entries, readings, entry),
    ensures
        0 <= place < order.len(),
        order[place] < files.len(),
        files[order[place] as int].entry == entry,
{
    let f = SessionFile { entry: entry as usize, file: first_file(readings[entry].is_file@)->0 };
    assert(probes[entry] == readings[entry].is_file);
    assert(is_session_file(entries, probes, f));
    assert(files.contains(f));
    let k = choose|k: int| 0 <= k < files.len() && files[k] == f;
    assert(order.contains(k as usize));
    let place = choose|m: int| 0 <= m < order.len() && order[m] == k as usize;
    place
}

/// A bucket of the session store.
#[derive(Debug, PartialEq, Eq)]
pub enum Bucket {
    /// The one of this name.
    Named(String),
    /// The one that stands here in the list of buckets.
    Listed(usize),
}

/// Where a session file lies: in which bucket, in the directory of which session, and under
/// which of `SESSION_FILES`.
#[derive(Debug, PartialEq, Eq)]
pub struct Place {
    pub bucket: Bucket,
    pub id: String,
    pub file: usize,
}

/// A lookup of a session by its id: in the bucket of the working directory first, then in any
/// bucket, by name.
pub struct Lookup {
    bucket: String,
    id: String,
    order: Vec<usize>,
    next: usize,
}

/// The view of a `Lookup`.
pub struct LookupView {
    /// The name of the working directory's own bucket.
    pub bucket: Seq<char>,
    /// The id looked for.
    pub id: Seq<char>,
    /// The listed buckets still to be looked into, in order.
    pub left: Seq<usize>,
}

impl View for Lookup {
    type V = LookupView;

    closed spec fn view(&self) -> LookupView {
        LookupView {
            bucket: self.bucket@,
            id: self.id@,
            left: self.order@.skip(self.next as int),
        }
    }
}

impl Lookup {
    #[verifier::type_invariant]
    closed spec fn in_bounds(self) -> bool {
        self.next <= self.order.len()
    }

    /// A lookup of `session_id`, in the bucket of `cwd` first.
    pub fn new(cwd: &str, session_id: &str) -> (lookup: Result<Lookup, HostError>)
        ensures
            match lookup {
                Ok(l) => {
                    &&& valid_session_id(session_id@)
                    &&& l@.bucket == bucket_name(cwd@)
                    &&& l@.id == session_id@
                    &&& l@.left == Seq::<usize>::empty()
                },
                Err(HostError::InvalidSessionId(text)) => !valid_session_id(session_id@) && text@
                    == session_id@,
                Err(_) => false,
            },
    {
        let id = match validate_session_id(session_id) {
            Ok(id) => id.to_owned(),
            Err(error) => return Err(error),
        };
        let lookup = Lookup { bucket: encoded_dir(cwd), id, order: Vec::new(), next: 0 };
        assert(lookup@.left == Seq::<usize>::empty());
        Ok(lookup)
    }

    /// The name of the bucket to look into first.
    pub fn bucket(&self) -> (name: &str)
        ensures
            name@ == self@.bucket,
    {
        self.bucket.as_str()
    }

    /// The id looked for.
    pub fn id(&self) -> (id: &str)
        ensures
            id@ == self@.id,
    {
        self.id.as_str()
    }

    /// The session's file in the bucket of the working directory. `is_file` says which of
    /// `SESSION_FILES` are files in the session's directory there.
    pub fn in_own_bucket(&self, is_file: &[bool; 2]) -> (place: Option<Place>)
        ensures
            match place {
                Some(p) => {
                    &&& first_file(is_file@) == Some(p.file)
                    &&& p.bucket matches Bucket::Named(name)
                    &&& name@ == self@.bucket
                    &&& p.id@ == self@.id
                },
                None => first_file(is_file@) is None,
            },
    {
        match session_file_in(is_file) {
            Some(file) => Some(
                Place { bucket: Bucket::Named(self.bucket.clone()), id: self.id.clone(), file },
            ),
            None => None,
        }
    }

    /// Goes on to the directories among `buckets`, by name.
    pub fn list(&mut self, buckets: &Vec<DirEntry>)
        ensures
            dirs_by_name(buckets@, final(self)@.left),
            final(self)@.bucket == old(self)@.bucket,
            final(self)@.id == old(self)@.id,
    {
        let order = dirs_in_order(buckets);
        let ghost listed = order@;
        let mut listing = Lookup {
            bucket: self.bucket.clone(),
            id: self.id.clone(),
            order,
            next: 0,
        };
        assert(listing@.left == listed);
        *self = listing;
    }

    /// The listed bucket to look into next; none where all of them have been looked into.
    pub fn candidate(&self) -> (entry: Option<usize>)
        ensures
            entry == if self@.left.len() > 0 {
                Some(self@.left[0])
            } else {
                None
            },
    {
        proof {
            use_type_invariant(self);
        }
        if self.next < self.order.len() {
            Some(self.order[self.next])
        } else {
            None
        }
    }

    /// Takes which of `SESSION_FILES` are files in the session's directory in the candidate.
    /// The session's file, if it lies there; if not, the lookup goes on to the next bucket.
    pub fn offer(&mut self, is_file: &[bool; 2]) -> (place: Option<Place>)
        requires
            old(self)@.left.len() > 0,
        ensures
            final(self)@.bucket == old(self)@.bucket,
            final(self)@.id == old(self)@.id,
            match place {
                Some(p) => {
                    &&& first_file(is_file@) == Some(p.file)
                    &&& p.bucket == Bucket::Listed(old(self)@.left[0])
                    &&& p.id@ == old(self)@.id
                    &&& final(self)@.left == old(self)@.left
                },
                None => first_file(is_file@) is None && final(self)@.left
                    == old(self)@.left.drop_first(),
            },
    {
        proof {
            use_type_invariant(&*self);
        }
        match session_file_in(is_file) {
            Some(file) => Some(
                Place { bucket: Bucket::Listed(self.order[self.next]), id: self.id.clone(), file },
            ),
            None => {
                let ghost left = self@.left;
                self.next = self.next + 1;
                assert(self@.left == left.drop_first());
                None
            },
        }
    }
}

/// The session `session_id`, in the bucket of `cwd` first, then in any bucket, by name. `own`
/// says which of `SESSION_FILES` are files in the session's directory in the bucket of `cwd`,
/// and `probes` in each of the entries `buckets` of the session store.
pub fn find_transcript_by_id(
    cwd: &str,
    session_id: &str,
    own: &[bool; 2],
    buckets: &Vec<DirEntry>,
    probes: &Vec<[bool; 2]>,
) -> (found: Result<Option<Place>, HostError>)
    ensures
        match found {
            Err(HostError::InvalidSessionId(text)) => !valid_session_id(session_id@) && text@
                == session_id@,
            Err(_) => false,
            Ok(Some(place)) => {
                &&& valid_session_id(session_id@)
                &&& place.id@ == session_id@
                &&& match place.bucket {
                    Bucket::Named(name) => name@ == bucket_name(cwd@) && first_file(own@) == Some(
                        place.file,
                    ),
                    Bucket::Listed(entry) => {
                        &&& first_file(own@) is None
                        &&& is_session_file(
                            buckets@,
                            probes@,
                            (SessionFile { entry, file: place.file }),
                        )
                        &&& forall|f: SessionFile| #[trigger]
                            is_session_file(buckets@, probes@, f) && f.entry != entry
                                ==> name_precedes(buckets@, entry as int, f.entry as int)
                    },
                }
            },
            Ok(None) => {
                &&& valid_session_id(session_id@)
                &&& first_file(own@) is None
                &&& forall|f: SessionFile| !#[trigger] is_session_file(buckets@, probes@, f)
            },
        },
{
    let mut lookup = match Lookup::new(cwd, session_id) {
        Ok(lookup) => lookup,
        Err(error) => return Err(error),
    };
    match lookup.in_own_bucket(own) {
        Some(place) => return Ok(Some(place)),
        None => {},
    }
    lookup.list(buckets);
    let ghost order = lookup@.left;
    let ghost mut passed: int = 0;
    assert(order.skip(0) == order);
    loop
        invariant
            0 <= passed <= order.len(),
            lookup@.left == order.skip(passed),
            lookup@.id == session_id@,
            valid_session_id(session_id@),
            first_file(own@) is None,
            dirs_by_name(buckets@, order),
            forall|k: int|
                0 <= k < passed ==> first_file(probe(probes@, #[trigger] order[k] as int)) is None,
        decreases order.len() - passed,
    {
        let entry = match lookup.candidate() {
            Some(entry) => entry,
            None => {
                assert forall|f: SessionFile| !#[trigger] is_session_file(buckets@, probes@, f) by {
                    if is_session_file(buckets@, probes@, f) {
                        assert(order.contains(f.entry));
                    }
                }
                return Ok(None);
            },
        };
        assert(order[passed] == entry);
        assert(order.contains(entry));
        match lookup.offer(&probed(probes, entry)) {
            Some(place) => {
                assert forall|f: SessionFile| #[trigger]
                    is_session_file(buckets@, probes@, f) && f.entry != entry implies name_precedes(
                    buckets@,
                    entry as int,
                    f.entry as int,
                ) by {
                    assert(order.contains(f.entry));
                    let m = choose|m: int| 0 <= m < order.len() && order[m] == f.entry;
                    assert(m > passed);
                    assert(order[passed] == entry);
                }
                return Ok(Some(place));
            },
            None => {},
        }
        proof {
            passed = passed + 1;
        }
        assert(order.skip(passed - 1).drop_first() == order.skip(passed));
    }
}

proof fn lemma_uuid_has_no_slash(name: Seq<char>)
    requires
        uuid_shaped(uuid_part(name)),
    ensures
        !name.contains('/'),
        name.len() > 1,
        valid_session_id(name),
{
    reveal_strlit("session-");
    let part = uuid_part(name);
    let from = name.len() - part.len();
    assert forall|i: int| 0 <= i < name.len() implies id_char(#[trigger] name[i]) by {
        if i < from {
            assert("session-"@[i] == name.take(8)[i]);
        } else {
            assert(name[i] == part[i - from]);
            assert(part[i - from] == '-' || hex_digit(part[i - from]));
        }
    }
    lemma_id_is_one_step(name);
}

/// The id that a transcript's directory carries can be looked up.
pub proof fn lemma_carried_id_is_valid(transcript: Seq<char>)
    requires
        id_in_path(transcript) is Some,
    ensures
        valid_session_id(id_in_path(transcript)->0),
{
    lemma_uuid_has_no_slash(directory_of(transcript)->0);
}

/// A transcript names its session by its directory: a file in a directory named by a UUID, or
/// by `session-` and a UUID, carries that name, wherever the directory lies.
pub proof fn lemma_path_carries_id(bucket: Seq<char>, id: Seq<char>, file: Seq<char>)
    requires
        uuid_shaped(uuid_part(id)),
        !file.contains('/'),
        file.len() > 0,
        file != "."@,
    ensures
        id_in_path(bucket.push('/') + id.push('/') + file) == Some(id),
{
    lemma_uuid_has_no_slash(id);
    reveal_strlit(".");
    let kept = |step: Seq<char>| step.len() > 0 && step != "."@;
    let dir = bucket.push('/') + id;
    let path = dir.push('/') + file;
    assert(bucket.push('/') + id.push('/') + file == path);
    lemma_pieces_append(bucket, '/', id);
    lemma_pieces_append(dir, '/', file);
    let parts = pieces(bucket, '/');
    assert(pieces(path, '/') == parts.push(id).push(file));
    reveal(Seq::filter);
    assert(parts.push(id).push(file).drop_last() == parts.push(id));
    assert(parts.push(id).drop_last() == parts);
    assert(kept(id) && kept(file));
    assert(parts.push(id).filter(kept) == parts.filter(kept).push(id));
    assert(steps(path) == parts.filter(kept).push(id).push(file));
}

/// Of two sessions in a bucket one is always preferred, and never each to the other.
pub proof fn lemma_one_is_preferred(
    entries: Seq<DirEntry>,
    readings: Seq<Reading>,
    i: int,
    j: int,
)
    requires
        i != j,
    ensures
        preferred(entries, readings, i, j) != preferred(entries, readings, j, i),
{
    let a = entries[i].name@;
    let b = entries[j].name@;
    lemma_bytes_total(a, b);
    lemma_bytes_irreflexive(a);
    if bytes_before(a, b) && bytes_before(b, a) {
        lemma_bytes_transitive(a, b, a);
    }
}

/// Newest first is by the whole times, as numbers: a file that was written later comes earlier,
/// and of two written at the same time the one listed first. Each file is listed once.
pub proof fn lemma_newest_first(modified: Seq<u64>, order: Seq<usize>)
    requires
        newest_first(modified, order),
        modified.len() <= usize::MAX,
    ensures
        order.no_duplicates(),
        order.len() == modified.len(),
        forall|i: int, j: int|
            0 <= i < j < order.len() ==> {
                ||| modified[#[trigger] order[i] as int] > modified[#[trigger] order[j] as int]
                ||| modified[order[i] as int] == modified[order[j] as int] && order[i] < order[j]
            },
{
    assert forall|i: int, j: int| 0 <= i < j < order.len() implies {
        ||| modified[#[trigger] order[i] as int] > modified[#[trigger] order[j] as int]
        ||| modified[order[i] as int] == modified[order[j] as int] && order[i] < order[j]
    } by {
        assert(written_after(modified, order[i] as int, order[j] as int));
    }
    assert forall|i: int, j: int|
        0 <= i < order.len() && 0 <= j < order.len() && i != j implies order[i] != order[j] by {
        if i < j {
            assert(written_after(modified, order[i] as int, order[j] as int));
        } else {
            assert(written_after(modified, order[j] as int, order[i] as int));
        }
    }
    let places = order.to_set();
    let all = Set::new(|x: usize| x < modified.len());
    order.unique_seq_to_set();
    assert(places =~= all) by {
        assert forall|x: usize| places.contains(x) <==> all.contains(x) by {
            assert(order.contains(x) <==> x < modified.len());
        }
    }
    lemma_numbers_below(modified.len());
}

proof fn lemma_numbers_below(n: nat)
    requires
        n <= usize::MAX,
    ensures
        Set::new(|x: usize| x < n).finite(),
        Set::new(|x: usize| x < n).len() == n,
    decreases n,
{
    let all = Set::new(|x: usize| x < n);
    if n == 0 {
        assert(all =~= Set::empty());
    } else {
        let m = (n - 1) as nat;
        lemma_numbers_below(m);
        let fewer = Set::new(|x: usize| x < m);
        assert(all =~= fewer.insert(m as usize));
    }
}

/// A session that was written later, by its whole time, is always preferred; one that was
/// written earlier never is. Of two written at the same time the names decide.
pub proof fn lemma_later_is_preferred(
    entries: Seq<DirEntry>,
    readings: Seq<Reading>,
    i: int,
    j: int,
)
    ensures
        readings[i].modified > readings[j].modified ==> preferred(entries, readings, i, j),
        preferred(entries, readings, i, j) ==> readings[i].modified >= readings[j].modified,
        readings[i].modified == readings[j].modified ==> (preferred(entries, readings, i, j)
            <==> name_precedes(entries, i, j)),
        readings[i].modified == readings[j].modified && preferred(entries, readings, i, j)
            && entries[i].name@ != entries[j].name@ ==> exists|k: int|
            #![trigger entries[i].name@.take(k)]
            {
                &&& 0 <= k <= entries[i].name@.len()
                &&& k < entries[j].name@.len()
                &&& entries[i].name@.take(k) == entries[j].name@.take(k)
                &&& k < entries[i].name@.len() ==> entries[i].name@[k] < entries[j].name@[k]
            },
{
    let a = entries[i].name@;
    let b = entries[j].name@;
    if readings[i].modified == readings[j].modified && preferred(entries, readings, i, j) && a
        != b {
        let k = lemma_first_difference(a, b);
        assert(entries[i].name@.take(k) == entries[j].name@.take(k));
    }
}

/// Names come in the order of a dictionary: where two first differ the smaller byte decides, and
/// a name comes before those that it starts.
pub proof fn lemma_first_difference(a: Seq<u8>, b: Seq<u8>) -> (k: int)
    requires
        bytes_before(a, b),
    ensures
        0 <= k <= a.len(),
        k < b.len(),
        a.take(k) == b.take(k),
        k < a.len() ==> a[k] < b[k],
    decreases a.len(),
{
    if a.len() > 0 && a[0] == b[0] {
        let k = lemma_first_difference(a.drop_first(), b.drop_first());
        assert(a.take(k + 1) == seq![a[0]] + a.drop_first().take(k));
        assert(b.take(k + 1) == seq![b[0]] + b.drop_first().take(k));
        k + 1
    } else {
        assert(a.take(0) == b.take(0));
        0
    }
}

/// Where two names first differ the one with the smaller byte comes first, as does the one that
/// ends there.
pub proof fn lemma_difference_decides(a: Seq<u8>, b: Seq<u8>, k: int)
    requires
        0 <= k <= a.len(),
        k < b.len(),
        a.take(k) == b.take(k),
        k < a.len() ==> a[k] < b[k],
    ensures
        bytes_before(a, b),
        !bytes_before(b, a),
    decreases k,
{
    if k > 0 {
        assert(a.take(k)[0] == a[0] && b.take(k)[0] == b[0]);
        assert(a.drop_first().take(k - 1) == a.take(k).drop_first());
        assert(b.drop_first().take(k - 1) == b.take(k).drop_first());
        lemma_difference_decides(a.drop_first(), b.drop_first(), k - 1);
    }
}

/// Of two entries the one whose name comes first in the dictionary precedes; only of two equal
/// names does the place in the list decide.
pub proof fn lemma_name_precedes(entries: Seq<DirEntry>, i: int, j: int)
    ensures
        bytes_before(entries[i].name@, entries[j].name@) ==> name_precedes(entries, i, j)
            && !name_precedes(entries, j, i),
        entries[i].name@ == entries[j].name@ ==> (name_precedes(entries, i, j) <==> i < j),
        name_precedes(entries, i, j) ==> entries[i].name@ == entries[j].name@ || bytes_before(
            entries[i].name@,
            entries[j].name@,
        ),
{
    let a = entries[i].name@;
    let b = entries[j].name@;
    lemma_bytes_irreflexive(a);
    lemma_bytes_irreflexive(b);
    if bytes_before(a, b) && bytes_before(b, a) {
        lemma_bytes_transitive(a, b, a);
    }
}

/// The directories in a list are listed once each, and nothing else is.
pub proof fn lemma_dirs_by_name(entries: Seq<DirEntry>, order: Seq<usize>)
    requires
        dirs_by_name(entries, order),
        entries.len() <= usize::MAX,
    ensures
        order.no_duplicates(),
        forall|k: int|
            0 <= k < order.len() ==> (#[trigger] order[k]) < entries.len()
                && entries[order[k] as int].is_dir,
        forall|x: int|
            0 <= x < entries.len() && (#[trigger] entries[x]).is_dir ==> order.contains(x as usize),
        forall|i: int, j: int|
            0 <= i < j < order.len() ==> !bytes_before(
                entries[#[trigger] order[j] as int].name@,
                entries[#[trigger] order[i] as int].name@,
            ),
{
    assert forall|i: int, j: int| 0 <= i < j < order.len() implies order[i] != order[j]
        && !bytes_before(
        entries[#[trigger] order[j] as int].name@,
        entries[#[trigger] order[i] as int].name@,
    ) by {
        let x = order[i] as int;
        let y = order[j] as int;
        assert(name_precedes(entries, x, y));
        lemma_bytes_irreflexive(entries[x].name@);
        if bytes_before(entries[y].name@, entries[x].name@) {
            lemma_name_precedes(entries, y, x);
        }
    }
    assert forall|k: int| 0 <= k < order.len() implies (#[trigger] order[k]) < entries.len()
        && entries[order[k] as int].is_dir by {
        assert(order.contains(order[k]));
    }
}

/// The session files in a bucket are listed once each, by the names of their directories, and
/// every directory that holds one is listed.
pub proof fn lemma_files_by_name(
    entries: Seq<DirEntry>,
    probes: Seq<[bool; 2]>,
    files: Seq<SessionFile>,
)
    requires
        files_by_name(entries, probes, files),
        entries.len() <= usize::MAX,
    ensures
        files.no_duplicates(),
        forall|k: int|
            0 <= k < files.len() ==> {
                &&& (#[trigger] files[k]).entry < entries.len()
                &&& files[k].entry < probes.len()
                &&& entries[files[k].entry as int].is_dir
                &&& files[k].file <= 1
                &&& probes[files[k].entry as int]@[files[k].file as int]
            },
        forall|x: int|
            0 <= x < entries.len() && x < probes.len() && (#[trigger] entries[x]).is_dir && (
            probes[x]@[0] || probes[x]@[1]) ==> files.contains(
                SessionFile {
                    entry: x as usize,
                    file: if probes[x]@[0] {
                        0
                    } else {
                        1
                    },
                },
            ),
        forall|i: int, j: int|
            0 <= i < j < files.len() ==> (#[trigger] files[i]).entry != (#[trigger] files[j]).entry
                && !bytes_before(
                entries[files[j].entry as int].name@,
                entries[files[i].entry as int].name@,
            ),
{
    assert forall|i: int, j: int|
        0 <= i < j < files.len() implies (#[trigger] files[i]).entry != (#[trigger] files[j]).entry
        && !bytes_before(
        entries[files[j].entry as int].name@,
        entries[files[i].entry as int].name@,
    ) by {
        let x = files[i].entry as int;
        let y = files[j].entry as int;
        assert(name_precedes(entries, x, y));
        lemma_bytes_irreflexive(entries[x].name@);
        if bytes_before(entries[y].name@, entries[x].name@) {
            lemma_name_precedes(entries, y, x);
        }
    }
    assert forall|k: int| 0 <= k < files.len() implies {
        &&& (#[trigger] files[k]).entry < entries.len()
        &&& files[k].entry < probes.len()
        &&& entries[files[k].entry as int].is_dir
        &&& files[k].file <= 1
        &&& probes[files[k].entry as int]@[files[k].file as int]
    } by {
        assert(files.contains(files[k]));
        lemma_is_session_file(entries, probes, files[k]);
    }
    assert forall|x: int|
        0 <= x < entries.len() && x < probes.len() && (#[trigger] entries[x]).is_dir && (
        probes[x]@[0] || probes[x]@[1]) implies files.contains(
        SessionFile {
            entry: x as usize,
            file: if probes[x]@[0] {
                0
            } else {
                1
            },
        },
    ) by {
        let found = SessionFile {
            entry: x as usize,
            file: if probes[x]@[0] {
                0
            } else {
                1
            },
        };
        lemma_is_session_file(entries, probes, found);
    }
}

/// A session's file is the one of the newest scheme where there is one, else the one of the
/// scheme before, and there is none exactly where both are missing.
pub proof fn lemma_first_file(is_file: [bool; 2])
    ensures
        first_file(is_file@) == Some(0usize) <==> is_file@[0],
        first_file(is_file@) == Some(1usize) <==> !is_file@[0] && is_file@[1],
        first_file(is_file@) is None <==> !is_file@[0] && !is_file@[1],
        SESSION_FILES@[0]@ == "session.v3.jsonl.zstd"@,
        SESSION_FILES@[1]@ == "session.jsonl.zstd"@,
{
}

/// A session file is found in every directory that holds a file of one of the two names, and
/// in nothing else.
pub proof fn lemma_is_session_file(
    entries: Seq<DirEntry>,
    probes: Seq<[bool; 2]>,
    found: SessionFile,
)
    ensures
        is_session_file(entries, probes, found) <==> {
            &&& found.entry < entries.len()
            &&& found.entry < probes.len()
            &&& entries[found.entry as int].is_dir
            &&& {
                ||| found.file == 0 && probes[found.entry as int]@[0]
                ||| found.file == 1 && !probes[found.entry as int]@[0]
                    && probes[found.entry as int]@[1]
            }
        },
{
}

/// A session counts exactly where it is a directory that holds a file of one of the two names,
/// and what the file holds could be read and is a session with a reply.
pub proof fn lemma_replies(entries: Seq<DirEntry>, readings: Seq<Reading>, i: int)
    requires
        0 <= i < entries.len(),
        i < readings.len(),
    ensures
        replies(entries, readings, i) <==> {
            &&& entries[i].is_dir
            &&& readings[i].is_file@[0] || readings[i].is_file@[1]
            &&& readings[i].transcript matches Some(bytes)
            &&& reply_bytes(bytes@)
        },
{
}

/// The steps of a path are what stands between its slashes: those of what stands before a slash,
/// and those of what stands behind it. Nothing and a dot are no steps; all else is one.
pub proof fn lemma_steps(path: Seq<char>, more: Seq<char>)
    ensures
        steps(path + seq!['/'] + more) == steps(path) + steps(more),
        !path.contains('/') ==> steps(path) == if path.len() == 0 || path == seq!['.'] {
            Seq::<Seq<char>>::empty()
        } else {
            seq![path]
        },
{
    reveal_strlit(".");
    let kept = |step: Seq<char>| step.len() > 0 && step != "."@;
    assert(path + seq!['/'] + more == path.push('/') + more);
    lemma_pieces_concat(path, '/', more);
    Seq::filter_distributes_over_add(pieces(path, '/'), pieces(more, '/'), kept);
    if !path.contains('/') {
        lemma_first_piece(path, '/', more);
        reveal(Seq::filter);
        assert("."@ == seq!['.']);
        assert(seq![path].drop_last() == Seq::<Seq<char>>::empty());
        assert(seq![path].last() == path);
        assert(Seq::<Seq<char>>::empty().filter(kept) == Seq::<Seq<char>>::empty());
        assert(Seq::<Seq<char>>::empty().push(path) == seq![path]);
    }
}

/// Whatever directory a transcript lies in, its name is the session's id where it is a UUID, or
/// `session-` and a UUID; any other name is no id.
pub proof fn lemma_directory_is_the_id(bucket: Seq<char>, name: Seq<char>, file: Seq<char>)
    requires
        !name.contains('/'),
        name.len() > 0,
        name != seq!['.'],
        !file.contains('/'),
        file.len() > 0,
        file != seq!['.'],
    ensures
        id_in_path(bucket + seq!['/'] + name + seq!['/'] + file) == if uuid_shaped(name) || (
        name.len() >= 8 && name.take(8) == seq!['s', 'e', 's', 's', 'i', 'o', 'n', '-']
            && uuid_shaped(name.skip(8))) {
            Some(name)
        } else {
            None
        },
{
    let path = bucket + seq!['/'] + name + seq!['/'] + file;
    let dir = bucket + seq!['/'] + name;
    lemma_steps(bucket, name);
    lemma_steps(name, file);
    lemma_steps(dir, file);
    lemma_steps(file, file);
    let names = steps(path);
    assert(names == steps(bucket) + seq![name] + seq![file]);
    assert(names[names.len() - 2] == name);
    assert(directory_of(path) == Some(name));
    reveal_strlit("session-");
    assert("session-"@ == seq!['s', 'e', 's', 's', 'i', 'o', 'n', '-']);
    if "session-"@.is_prefix_of(name) {
        assert(name.take(8) == "session-"@);
        assert(name.take(8)[0] == name[0]);
        if uuid_shaped(name) {
            lemma_uuid_characters(name);
            assert(hex_digit(name[0]));
        }
    } else if name.len() >= 8 && name.take(8) == "session-"@ {
        assert(false);
    }
}

/// The directory of a transcript is the last step of its path but one, whether or not anything
/// stands before it. A path of fewer steps gives no id.
pub proof fn lemma_last_step_but_one(transcript: Seq<char>)
    ensures
        steps(transcript).len() < 2 ==> id_in_path(transcript) is None,
        steps(transcript).len() >= 2 ==> ({
            let name = steps(transcript)[steps(transcript).len() - 2];
            id_in_path(transcript) == if uuid_shaped(name) || (name.len() >= 8 && name.take(8)
                == seq!['s', 'e', 's', 's', 'i', 'o', 'n', '-'] && uuid_shaped(name.skip(8))) {
                Some(name)
            } else {
                None
            }
        }),
{
    reveal_strlit("session-");
    assert("session-"@ == seq!['s', 'e', 's', 's', 'i', 'o', 'n', '-']);
    if steps(transcript).len() >= 2 {
        let name = steps(transcript)[steps(transcript).len() - 2];
        if "session-"@.is_prefix_of(name) {
            assert(name.take(8) == "session-"@);
            assert(name.take(8)[0] == name[0]);
            if uuid_shaped(name) {
                lemma_uuid_characters(name);
                assert(hex_digit(name[0]));
            }
        } else if name.len() >= 8 && name.take(8) == "session-"@ {
            assert(false);
        }
    }
}

/// A transcript in a directory that is named by any UUID, its hexadecimal digits small or large,
/// carries that name as its id, and so does one in a directory named by `session-` and a UUID.
pub proof fn lemma_uuid_directory(bucket: Seq<char>, uuid: Seq<char>, file: Seq<char>)
    requires
        uuid.len() == 36,
        uuid[8] == '-' && uuid[13] == '-' && uuid[18] == '-' && uuid[23] == '-',
        forall|i: int|
            0 <= i < 36 && i != 8 && i != 13 && i != 18 && i != 23
                ==> "0123456789abcdefABCDEF"@.contains(#[trigger] uuid[i]),
        !file.contains('/'),
        file.len() > 0,
        file != seq!['.'],
    ensures
        id_in_path(bucket + seq!['/'] + uuid + seq!['/'] + file) == Some(uuid),
        id_in_path(
            bucket + seq!['/'] + (seq!['s', 'e', 's', 's', 'i', 'o', 'n', '-'] + uuid) + seq!['/']
                + file,
        ) == Some(seq!['s', 'e', 's', 's', 'i', 'o', 'n', '-'] + uuid),
{
    lemma_uuid_characters(uuid);
    let prefix = seq!['s', 'e', 's', 's', 'i', 'o', 'n', '-'];
    let long = prefix + uuid;
    assert forall|i: int| 0 <= i < 36 implies uuid[i] != '/' by {
        if i == 8 || i == 13 || i == 18 || i == 23 {
        } else {
            assert(hex_digit(uuid[i]));
        }
    }
    assert(!long.contains('/')) by {
        if long.contains('/') {
            let i = choose|i: int| 0 <= i < long.len() && long[i] == '/';
            if i >= 8 {
                assert(uuid[i - 8] == '/');
            } else {
                assert(prefix[i] == '/');
            }
        }
    }
    assert(long.take(8) == prefix);
    assert(long.skip(8) == uuid);
    lemma_directory_is_the_id(bucket, uuid, file);
    lemma_directory_is_the_id(bucket, long, file);
}

} // verus!
