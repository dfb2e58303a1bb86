//! Ordered writes of fully prepared synchronization outputs.
//!
//! External fragment files are written in canonical path order, then the
//! document. The first failure stops the commit and reports exactly the
//! external fragments whose bytes were completely written before it.

use vstd::prelude::*;
use vstd::string::*;
use vstd::utf8::decode_utf8;

use crate::access::{AccessPolicy, PolicyFailure};
use crate::fragment::{is_canonical_path, FragmentPath};
use crate::text::{bytes_lt, seq_lt};

verus! {

broadcast use vstd::utf8::encode_utf8_decode_utf8;

/// How an external fragment file is written.
#[derive(Clone, Copy, Debug, PartialEq, Eq, Structural)]
pub enum ExternalWrite {
    CreateNew,
    CreateOrTruncate,
}

/// A fully prepared external fragment output.
pub struct ExternalOutput<'a> {
    pub path: &'a FragmentPath,
    pub bytes: &'a [u8],
    pub write: ExternalWrite,
}

/// A fully prepared document output.
pub struct DocumentOutput<'a> {
    pub destination: &'a str,
    pub bytes: &'a [u8],
}

/// A refused access, with the external writes completed before it.
#[derive(Debug)]
pub struct CommitAccessFailure<A> {
    pub source: A,
    pub completed: Vec<FragmentPath>,
}

/// What a filesystem call of a commit came back with.
pub enum WriteOutcome {
    Written,
    /// The created file also identifies the absent target with this path.
    CreatedAlias(Seq<u8>),
    Failed(Seq<char>),
}

/// One filesystem effect of a commit, with what came back. Paths are the
/// UTF-8 bytes handed to the call.
pub enum FsEffect {
    CreateDir { path: Seq<u8>, failure: Option<Seq<char>> },
    WriteExternal {
        path: Seq<u8>,
        bytes: Seq<u8>,
        write: ExternalWrite,
        absent: Seq<Seq<u8>>,
        outcome: WriteOutcome,
    },
    WriteDocument { path: Seq<u8>, bytes: Seq<u8>, failure: Option<Seq<char>> },
}

/// The message of a failed call, if it failed.
pub open spec fn failure_of(r: Result<(), String>) -> Option<Seq<char>> {
    match r {
        Ok(()) => None,
        Err(m) => Some(m@),
    }
}

/// What an external write came back with.
pub open spec fn write_outcome(r: Result<Option<FragmentPath>, String>) -> WriteOutcome {
    match r {
        Ok(None) => WriteOutcome::Written,
        Ok(Some(other)) => WriteOutcome::CreatedAlias(other@),
        Err(m) => WriteOutcome::Failed(m@),
    }
}

/// An external write, with what came back.
pub open spec fn external_write_effect(
    path: Seq<u8>,
    bytes: Seq<u8>,
    write: ExternalWrite,
    absent: Seq<Seq<u8>>,
    outcome: WriteOutcome,
) -> FsEffect {
    FsEffect::WriteExternal { path, bytes, write, absent, outcome }
}

/// A document write, with what came back.
pub open spec fn document_write_effect(path: Seq<u8>, bytes: Seq<u8>, failure: Option<Seq<char>>) -> FsEffect {
    FsEffect::WriteDocument { path, bytes, failure }
}

pub open spec fn path_ref_views(paths: Seq<&FragmentPath>) -> Seq<Seq<u8>> {
    paths.map_values(|p: &FragmentPath| p@)
}

/// The filesystem effects of a commit. Errors are reported as messages.
///
/// An implementation promises nothing of its results: a commit records
/// each call it makes and what the call returned in a
/// [`RecordingFilesystem`], and states its effects over that record.
pub trait CommitFilesystem {
    /// The named destination of an external fragment.
    fn external_destination(&self, path: &FragmentPath) -> String;

    fn create_dir_all(&mut self, path: &str) -> Result<(), String>;

    /// Writes one external fragment; a created file that also identifies one
    /// of `absent_targets` is reported by that target's path.
    fn write_external(
        &mut self,
        path: &FragmentPath,
        bytes: &[u8],
        write: ExternalWrite,
        absent_targets: &[&FragmentPath],
    ) -> Result<Option<FragmentPath>, String>;

    fn write_document(&mut self, path: &str, bytes: &[u8]) -> Result<(), String>;
}

/// A borrowed filesystem makes its effects on the filesystem it borrows.
impl<'a, F: CommitFilesystem> CommitFilesystem for &'a mut F {
    fn external_destination(&self, path: &FragmentPath) -> String {
        (**self).external_destination(path)
    }

    fn create_dir_all(&mut self, path: &str) -> Result<(), String> {
        (**self).create_dir_all(path)
    }

    fn write_external(
        &mut self,
        path: &FragmentPath,
        bytes: &[u8],
        write: ExternalWrite,
        absent_targets: &[&FragmentPath],
    ) -> Result<Option<FragmentPath>, String> {
        (**self).write_external(path, bytes, write, absent_targets)
    }

    fn write_document(&mut self, path: &str, bytes: &[u8]) -> Result<(), String> {
        (**self).write_document(path, bytes)
    }
}

/// A filesystem together with the record of every effect made through it:
/// each call, in order, with what it returned.
pub struct RecordingFilesystem<F> {
    filesystem: F,
    log: Ghost<Seq<FsEffect>>,
}

impl<F: CommitFilesystem> RecordingFilesystem<F> {
    /// The effects made so far, in order.
    pub closed spec fn effects(&self) -> Seq<FsEffect> {
        self.log@
    }

    /// Starts a record of the effects made through `filesystem`.
    pub fn new(filesystem: F) -> (r: Self)
        ensures
            r.effects() == Seq::<FsEffect>::empty(),
    {
        RecordingFilesystem { filesystem, log: Ghost(Seq::empty()) }
    }

    /// The filesystem.
    pub fn filesystem(&self) -> &F {
        &self.filesystem
    }

    /// Ends the record and gives the filesystem back.
    pub fn into_filesystem(self) -> F {
        self.filesystem
    }

    /// The named destination of an external fragment.
    pub fn external_destination(&self, path: &FragmentPath) -> String {
        self.filesystem.external_destination(path)
    }

    pub fn create_dir_all(&mut self, path: &str) -> (r: Result<(), String>)
        ensures
            final(self).effects() == old(self).effects().push(
                FsEffect::CreateDir { path: path.spec_bytes(), failure: failure_of(r) },
            ),
    {
        let r = self.filesystem.create_dir_all(path);
        self.log = Ghost(self.log@.push(FsEffect::CreateDir { path: path.spec_bytes(), failure: failure_of(r) }));
        r
    }

    /// Writes one external fragment; a created file that also identifies one
    /// of `absent_targets` is reported by that target's path.
    pub fn write_external(
        &mut self,
        path: &FragmentPath,
        bytes: &[u8],
        write: ExternalWrite,
        absent_targets: &[&FragmentPath],
    ) -> (r: Result<Option<FragmentPath>, String>)
        ensures
            final(self).effects() == old(self).effects().push(
                FsEffect::WriteExternal {
                    path: path@,
                    bytes: bytes@,
                    write,
                    absent: path_ref_views(absent_targets@),
                    outcome: write_outcome(r),
                },
            ),
    {
        let r = self.filesystem.write_external(path, bytes, write, absent_targets);
        self.log = Ghost(
            self.log@.push(
                FsEffect::WriteExternal {
                    path: path@,
                    bytes: bytes@,
                    write,
                    absent: path_ref_views(absent_targets@),
                    outcome: write_outcome(r),
                },
            ),
        );
        r
    }

    pub fn write_document(&mut self, path: &str, bytes: &[u8]) -> (r: Result<(), String>)
        ensures
            final(self).effects() == old(self).effects().push(
                FsEffect::WriteDocument { path: path.spec_bytes(), bytes: bytes@, failure: failure_of(r) },
            ),
    {
        let r = self.filesystem.write_document(path, bytes);
        self.log = Ghost(
            self.log@.push(FsEffect::WriteDocument { path: path.spec_bytes(), bytes: bytes@, failure: failure_of(r) }),
        );
        r
    }
}

/// The stage and destination at which a commit failed.
#[derive(Debug)]
pub enum CommitFailure {
    AllocationFailed,
    ExternalOrder { previous: FragmentPath, next: FragmentPath },
    CreateExternalParent { path: FragmentPath, destination: String, source: String },
    WriteExternal { path: FragmentPath, destination: String, source: String },
    CreatedTargetAlias { created_path: FragmentPath, other_path: FragmentPath },
    WriteDocument { destination: String, source: String },
}

/// A commit failure together with the external writes that completed before it.
#[derive(Debug)]
pub struct CommitError {
    completed: Vec<FragmentPath>,
    failure: CommitFailure,
}

pub open spec fn path_views(paths: Seq<FragmentPath>) -> Seq<Seq<u8>> {
    paths.map_values(|p: FragmentPath| p@)
}

impl CommitError {
    pub closed spec fn completed_paths(&self) -> Seq<Seq<u8>> {
        path_views(self.completed@)
    }

    pub closed spec fn spec_failure(&self) -> CommitFailure {
        self.failure
    }

    /// External fragments whose complete prepared bytes were written.
    pub fn completed(&self) -> (r: &[FragmentPath])
        ensures
            path_views(r@) == self.completed_paths(),
    {
        self.completed.as_slice()
    }

    /// The operation that failed.
    pub fn failure(&self) -> (r: &CommitFailure)
        ensures
            *r == self.spec_failure(),
    {
        &self.failure
    }

    /// The failure's message, followed by the external fragments already
    /// written.
    pub fn to_string(&self) -> (r: String)
        ensures
            r@ == error_message(self.spec_failure(), self.completed_paths()),
    {
        let mut message = self.failure.to_string();
        let n = self.completed.len();
        let ghost paths = self.completed_paths();
        if n > 0 {
            message.append(" after writing external fragment");
            if n != 1 {
                message.append("s");
            }
            message.append(" ");
            let ghost head = message@;
            let mut i: usize = 0;
            while i < n
                invariant
                    n == self.completed@.len(),
                    paths == self.completed_paths(),
                    paths.len() == n,
                    i <= n,
                    message@ == head + quoted_paths(paths.subrange(0, i as int)),
                decreases n - i,
            {
                let ghost before = message@;
                if i != 0 {
                    message.append(", ");
                }
                message.append("`");
                let text = self.completed[i].as_str();
                assert(paths[i as int] == self.completed@[i as int]@);
                assert(text@ == decode_utf8(paths[i as int]));
                message.append(text);
                message.append("`");
                proof {
                    let next = paths.subrange(0, i + 1);
                    assert(next.drop_last() =~= paths.subrange(0, i as int));
                    assert(next.last() == paths[i as int]);
                    if i == 0 {
                        assert(paths.subrange(0, 0) =~= Seq::<Seq<u8>>::empty());
                    }
                    assert(message@ =~= head + quoted_paths(next));
                }
                i = i + 1;
            }
            assert(paths.subrange(0, n as int) =~= paths);
        }
        message
    }
}

impl CommitFailure {
    pub fn before_writes(self) -> (r: CommitError)
        ensures
            r.completed_paths() == Seq::<Seq<u8>>::empty(),
            r.spec_failure() == self,
    {
        let r = CommitError { completed: Vec::new(), failure: self };
        assert(r.completed_paths() =~= Seq::<Seq<u8>>::empty());
        r
    }

    pub fn after(self, completed: Vec<FragmentPath>) -> (r: CommitError)
        ensures
            r.completed_paths() == path_views(completed@),
            r.spec_failure() == self,
    {
        CommitError { completed, failure: self }
    }

    /// The failure's message.
    pub fn to_string(&self) -> (r: String)
        ensures
            r@ == failure_message(*self),
    {
        match self {
            CommitFailure::AllocationFailed => String::from_str(
                "memory could not be reserved for commit reporting",
            ),
            CommitFailure::ExternalOrder { previous, next } => {
                let mut m = String::from_str("external outputs are not strictly ordered: `");
                m.append(previous.as_str());
                m.append("` precedes `");
                m.append(next.as_str());
                m.append("`");
                m
            },
            CommitFailure::CreateExternalParent { path, destination, source } => {
                let mut m = String::from_str("cannot create the parent of external fragment `");
                m.append(path.as_str());
                m.append("` at `");
                m.append(destination.as_str());
                m.append("`: ");
                m.append(source.as_str());
                m
            },
            CommitFailure::WriteExternal { path, destination, source } => {
                let mut m = String::from_str("cannot write external fragment `");
                m.append(path.as_str());
                m.append("` at `");
                m.append(destination.as_str());
                m.append("`: ");
                m.append(source.as_str());
                m
            },
            CommitFailure::CreatedTargetAlias { created_path, other_path } => {
                let mut m = String::from_str("created external fragment `");
                m.append(created_path.as_str());
                m.append("` also identifies fragment target `");
                m.append(other_path.as_str());
                m.append("`");
                m
            },
            CommitFailure::WriteDocument { destination, source } => {
                let mut m = String::from_str("cannot write document `");
                m.append(destination.as_str());
                m.append("`: ");
                m.append(source.as_str());
                m
            },
        }
    }
}

/// The message of a commit failure.
pub open spec fn failure_message(f: CommitFailure) -> Seq<char> {
    match f {
        CommitFailure::AllocationFailed => "memory could not be reserved for commit reporting"@,
        CommitFailure::ExternalOrder { previous, next } => "external outputs are not strictly ordered: `"@
            + decode_utf8(previous@) + "` precedes `"@ + decode_utf8(next@) + "`"@,
        CommitFailure::CreateExternalParent { path, destination, source } => "cannot create the parent of external fragment `"@
            + decode_utf8(path@) + "` at `"@ + destination@ + "`: "@ + source@,
        CommitFailure::WriteExternal { path, destination, source } => "cannot write external fragment `"@
            + decode_utf8(path@) + "` at `"@ + destination@ + "`: "@ + source@,
        CommitFailure::CreatedTargetAlias { created_path, other_path } => "created external fragment `"@
            + decode_utf8(created_path@) + "` also identifies fragment target `"@ + decode_utf8(other_path@) + "`"@,
        CommitFailure::WriteDocument { destination, source } => "cannot write document `"@ + destination@ + "`: "@
            + source@,
    }
}

/// Paths in backquotes, separated by commas.
pub open spec fn quoted_paths(paths: Seq<Seq<u8>>) -> Seq<char>
    decreases paths.len(),
{
    if paths.len() == 0 {
        Seq::empty()
    } else if paths.len() == 1 {
        "`"@ + decode_utf8(paths[0]) + "`"@
    } else {
        quoted_paths(paths.drop_last()) + ", "@ + "`"@ + decode_utf8(paths.last()) + "`"@
    }
}

/// The message of a commit error: the failure's, then the external
/// fragments written before it, if any.
pub open spec fn error_message(f: CommitFailure, completed: Seq<Seq<u8>>) -> Seq<char> {
    if completed.len() == 0 {
        failure_message(f)
    } else {
        failure_message(f) + " after writing external fragment"@ + (if completed.len() == 1 {
            Seq::empty()
        } else {
            "s"@
        }) + " "@ + quoted_paths(completed)
    }
}

pub open spec fn output_paths(external: Seq<ExternalOutput>) -> Seq<Seq<u8>> {
    external.map_values(|o: ExternalOutput| o.path@)
}

/// Every path precedes the next in canonical (byte) order.
pub open spec fn strictly_ordered(paths: Seq<Seq<u8>>) -> bool {
    forall|k: int| 0 <= k < paths.len() - 1 ==> seq_lt(#[trigger] paths[k], paths[k + 1])
}

/// The first position at or after `k` whose path does not precede the
/// next one, or `-1`.
pub open spec fn first_disorder_from(paths: Seq<Seq<u8>>, k: int) -> int
    decreases paths.len() - k,
{
    if k < 0 || k + 1 >= paths.len() {
        -1
    } else if !seq_lt(paths[k], paths[k + 1]) {
        k
    } else {
        first_disorder_from(paths, k + 1)
    }
}

pub open spec fn first_disorder(paths: Seq<Seq<u8>>) -> int {
    first_disorder_from(paths, 0)
}

/// Checks that external outputs are strictly ordered by canonical path.
pub fn validate_order(external: &[ExternalOutput]) -> (r: Result<(), CommitError>)
    ensures
        r is Ok <==> strictly_ordered(output_paths(external@)),
        r matches Err(e) ==> {
            let k = first_disorder(output_paths(external@));
            &&& e.completed_paths() == Seq::<Seq<u8>>::empty()
            &&& e.spec_failure() matches CommitFailure::ExternalOrder { previous, next }
            &&& previous@ == output_paths(external@)[k]
            &&& next@ == output_paths(external@)[k + 1]
        },
{
    let ghost paths = output_paths(external@);
    let n = external.len();
    let mut k: usize = 0;
    while n > 0 && k < n - 1
        invariant
            n == external@.len(),
            paths == output_paths(external@),
            k + 1 <= n || n == 0,
            forall|m: int| 0 <= m < k ==> seq_lt(#[trigger] paths[m], paths[m + 1]),
            first_disorder(paths) == first_disorder_from(paths, k as int),
        decreases external@.len() - k,
    {
        let previous = external[k].path;
        let next = external[k + 1].path;
        if !bytes_lt(previous.as_str().as_bytes(), next.as_str().as_bytes()) {
            proof {
                assert(paths[k as int] == previous@);
                assert(paths[k + 1] == next@);
            }
            return Err(
                CommitFailure::ExternalOrder {
                    previous: previous.clone(),
                    next: next.clone(),
                }.before_writes(),
            );
        }
        proof {
            assert(paths[k as int] == previous@);
            assert(paths[k + 1] == next@);
        }
        k = k + 1;
    }
    Ok(())
}

/// The last index of byte `c` in `p`, or `-1`.
pub open spec fn last_index_of(p: Seq<u8>, c: u8) -> int
    decreases p.len(),
{
    if p.len() == 0 {
        -1
    } else if p.last() == c {
        p.len() - 1
    } else {
        last_index_of(p.drop_last(), c)
    }
}

/// The parent directory of a fragment path, when it has a nonempty one.
pub open spec fn parent_of(p: Seq<u8>) -> Option<Seq<u8>> {
    let j = last_index_of(p, 0x2f);
    if j > 0 {
        Some(p.subrange(0, j))
    } else {
        None
    }
}

proof fn lemma_last_index(p: Seq<u8>, c: u8)
    ensures
        -1 <= last_index_of(p, c) < p.len(),
        last_index_of(p, c) >= 0 ==> p[last_index_of(p, c)] == c,
        forall|k: int| last_index_of(p, c) < k < p.len() ==> p[k] != c,
    decreases p.len(),
{
    if p.len() > 0 && p.last() != c {
        let q = p.drop_last();
        lemma_last_index(q, c);
        assert forall|k: int| last_index_of(p, c) < k < p.len() implies p[k] != c by {
            if k < q.len() {
                assert(q[k] == p[k]);
            }
        }
    }
}

/// The nonempty parent of a fragment path.
pub fn nonempty_parent(path: &FragmentPath) -> (r: Option<&str>)
    ensures
        match parent_of(path@) {
            Some(parent) => r matches Some(s) && s.spec_bytes() == parent,
            None => r is None,
        },
{
    let s = path.as_str();
    let bytes = s.as_bytes();
    proof {
        lemma_last_index(path@, 0x2f);
    }
    let mut j: usize = bytes.len();
    while j > 0
        invariant
            j <= bytes@.len(),
            bytes@ == path@,
            s.spec_bytes() == path@,
            is_canonical_path(path@),
            -1 <= last_index_of(path@, 0x2f) < path@.len(),
            last_index_of(path@, 0x2f) >= 0 ==> path@[last_index_of(path@, 0x2f)] == 0x2f,
            forall|k: int| last_index_of(path@, 0x2f) < k < path@.len() ==> path@[k] != 0x2f,
            forall|k: int| j <= k < bytes@.len() ==> bytes@[k] != 0x2f,
        decreases j,
    {
        if bytes[j - 1] == 0x2f {
            proof {
                assert(last_index_of(path@, 0x2f) == j - 1) by {
                    let l = last_index_of(path@, 0x2f);
                    if l < j - 1 {
                    } else if l > j - 1 {
                    }
                }
            }
            if j - 1 == 0 {
                return None;
            }
            proof {
                crate::text::lemma_ascii_boundaries(path@, j - 1);
                crate::text::lemma_ends_are_boundaries(path@);
            }
            return Some(crate::text::substr(s, 0, j - 1));
        }
        j = j - 1;
    }
    proof {
        assert(last_index_of(path@, 0x2f) == -1) by {
            let l = last_index_of(path@, 0x2f);
            if l >= 0 {
                assert(bytes@[l] == 0x2f);
            }
        }
    }
    None
}

/// What a commit that stopped reports: the external fragments completed
/// before the failure, always a prefix of the outputs in order.
pub open spec fn completed_prefix(completed: Seq<Seq<u8>>, paths: Seq<Seq<u8>>) -> bool {
    completed.len() <= paths.len() && completed == paths.subrange(0, completed.len() as int)
}

/// An external output as the commit hands it to the filesystem.
pub struct OutputView {
    pub path: Seq<u8>,
    pub bytes: Seq<u8>,
    pub write: ExternalWrite,
}

pub open spec fn output_views(outs: Seq<ExternalOutput>) -> Seq<OutputView> {
    outs.map_values(|o: ExternalOutput| OutputView { path: o.path@, bytes: o.bytes@, write: o.write })
}

/// The document output as its destination's bytes and its bytes.
pub open spec fn document_output_view(document: Option<DocumentOutput>) -> Option<(Seq<u8>, Seq<u8>)> {
    match document {
        Some(d) => Some((d.destination.spec_bytes(), d.bytes@)),
        None => None,
    }
}

/// The directory a commit creates before writing output `o`, with what came
/// back.
pub open spec fn dir_effects(o: OutputView, failure: Option<Seq<char>>) -> Seq<FsEffect> {
    match parent_of(o.path) {
        Some(p) => seq![FsEffect::CreateDir { path: p, failure }],
        None => Seq::empty(),
    }
}

/// The write of output `o`, with what came back.
pub open spec fn write_effect(o: OutputView, absent: Seq<Seq<u8>>, outcome: WriteOutcome) -> FsEffect {
    FsEffect::WriteExternal { path: o.path, bytes: o.bytes, write: o.write, absent, outcome }
}

/// The effects of writing the first `k` outputs completely.
pub open spec fn written_effects(outs: Seq<OutputView>, absent: Seq<Seq<u8>>, k: int) -> Seq<FsEffect>
    decreases k,
{
    if k <= 0 {
        Seq::empty()
    } else {
        written_effects(outs, absent, k - 1) + dir_effects(outs[k - 1], None) + seq![
            write_effect(outs[k - 1], absent, WriteOutcome::Written),
        ]
    }
}

/// The write of the document, if any, with what came back.
pub open spec fn document_effects(document: Option<(Seq<u8>, Seq<u8>)>, failure: Option<Seq<char>>) -> Seq<FsEffect> {
    match document {
        Some(d) => seq![FsEffect::WriteDocument { path: d.0, bytes: d.1, failure }],
        None => Seq::empty(),
    }
}

pub open spec fn view_paths(outs: Seq<OutputView>) -> Seq<Seq<u8>> {
    outs.map_values(|o: OutputView| o.path)
}

/// How a commit of `outs` and `document` can end: out of order exactly when
/// the paths are not strictly ordered, naming the first pair out of order;
/// any other failure after a prefix of the outputs, naming the output it
/// stopped at; a refused access likewise, or at the document.
pub open spec fn commit_ended<A>(
    outs: Seq<OutputView>,
    document: Option<(Seq<u8>, Seq<u8>)>,
    r: Result<(), PolicyFailure<CommitAccessFailure<A>, CommitError>>,
) -> bool {
    let paths = view_paths(outs);
    let n = outs.len() as int;
    &&& !strictly_ordered(paths) <==> (r matches Err(PolicyFailure::Operation(e)) && e.spec_failure() is ExternalOrder)
    &&& r is Ok ==> strictly_ordered(paths)
    &&& r matches Err(PolicyFailure::Access(f)) ==> completed_prefix(path_views(f.completed@), paths) && (
    f.completed@.len() == n ==> document is Some)
    &&& r matches Err(PolicyFailure::Operation(e)) ==> completed_prefix(e.completed_paths(), paths) && match e.spec_failure() {
        CommitFailure::ExternalOrder { previous, next } => e.completed_paths().len() == 0 && previous@
            == paths[first_disorder(paths)] && next@ == paths[first_disorder(paths) + 1],
        CommitFailure::CreateExternalParent { path, .. } => e.completed_paths().len() < n && path@
            == paths[e.completed_paths().len() as int],
        CommitFailure::WriteExternal { path, .. } => e.completed_paths().len() < n && path@
            == paths[e.completed_paths().len() as int],
        CommitFailure::CreatedTargetAlias { created_path, .. } => e.completed_paths().len() > 0
            && created_path@ == e.completed_paths().last(),
        CommitFailure::WriteDocument { .. } => e.completed_paths() == paths && document is Some,
        CommitFailure::AllocationFailed => false,
    }
}

/// The effects a commit makes, in order, for each way it ends: per output
/// its parent directory, then (through the access policy) its write; then
/// the document. A failure ends the sequence at the failing effect; a
/// refused access ends it before the refused write.
pub open spec fn commit_effects<A>(
    outs: Seq<OutputView>,
    absent: Seq<Seq<u8>>,
    document: Option<(Seq<u8>, Seq<u8>)>,
    r: Result<(), PolicyFailure<CommitAccessFailure<A>, CommitError>>,
) -> Seq<FsEffect> {
    let n = outs.len() as int;
    match r {
        Ok(()) => written_effects(outs, absent, n) + document_effects(document, None),
        Err(PolicyFailure::Operation(e)) => {
            let c = e.completed_paths().len() as int;
            match e.spec_failure() {
                CommitFailure::CreateExternalParent { source, .. } => written_effects(outs, absent, c)
                    + dir_effects(outs[c], Some(source@)),
                CommitFailure::WriteExternal { source, .. } => written_effects(outs, absent, c) + dir_effects(
                    outs[c],
                    None,
                ) + seq![write_effect(outs[c], absent, WriteOutcome::Failed(source@))],
                CommitFailure::CreatedTargetAlias { other_path, .. } => written_effects(outs, absent, c - 1)
                    + dir_effects(outs[c - 1], None) + seq![
                    write_effect(outs[c - 1], absent, WriteOutcome::CreatedAlias(other_path@)),
                ],
                CommitFailure::WriteDocument { source, .. } => written_effects(outs, absent, n) + document_effects(
                    document,
                    Some(source@),
                ),
                _ => Seq::empty(),
            }
        },
        Err(PolicyFailure::Access(f)) => {
            let c = f.completed@.len() as int;
            if c < n {
                written_effects(outs, absent, c) + dir_effects(outs[c], None)
            } else {
                written_effects(outs, absent, n)
            }
        },
    }
}

/// Writes one external output through the access policy: a refused access
/// leaves the filesystem as it was; otherwise the write is made once.
fn write_external_through<P: AccessPolicy, F: CommitFilesystem>(
    access: &mut P,
    filesystem: &mut RecordingFilesystem<F>,
    destination: &str,
    path: &FragmentPath,
    bytes: &[u8],
    write: ExternalWrite,
    absent_targets: &[&FragmentPath],
) -> (r: Result<Result<Option<FragmentPath>, String>, P::Error>)
    ensures
        r matches Ok(w) ==> final(filesystem).effects() == old(filesystem).effects().push(
            external_write_effect(path@, bytes@, write, path_ref_views(absent_targets@), write_outcome(w)),
        ),
        r is Err ==> final(filesystem).effects() == old(filesystem).effects(),
{
    let body = |target: &mut RecordingFilesystem<F>| -> (w: Result<Option<FragmentPath>, String>)
        ensures
            (*final(target)).effects() == (*old(target)).effects().push(
                external_write_effect(path@, bytes@, write, path_ref_views(absent_targets@), write_outcome(w)),
            ),
        {
            target.write_external(path, bytes, write, absent_targets)
        };
    access.write(destination, filesystem, body)
}

/// Writes the document through the access policy: a refused access leaves
/// the filesystem as it was; otherwise the write is made once.
fn write_document_through<P: AccessPolicy, F: CommitFilesystem>(
    access: &mut P,
    filesystem: &mut RecordingFilesystem<F>,
    destination: &str,
    bytes: &[u8],
) -> (r: Result<Result<(), String>, P::Error>)
    ensures
        r matches Ok(w) ==> final(filesystem).effects() == old(filesystem).effects().push(
            document_write_effect(destination.spec_bytes(), bytes@, failure_of(w)),
        ),
        r is Err ==> final(filesystem).effects() == old(filesystem).effects(),
{
    let body = |target: &mut RecordingFilesystem<F>| -> (w: Result<(), String>)
        ensures
            (*final(target)).effects() == (*old(target)).effects().push(
                document_write_effect(destination.spec_bytes(), bytes@, failure_of(w)),
            ),
        {
            target.write_document(destination, bytes)
        };
    access.write(destination, filesystem, body)
}

/// Writes external outputs in order, then the document, through `access`.
///
/// `external` must be strictly ordered by canonical fragment path; otherwise
/// nothing is written. Each output's parent directory is created, then the
/// output is written through the access policy; the document is written
/// last. The first failure stops the commit; its report names the external
/// fragments completely written before it.
#[verifier::spinoff_prover]
#[verifier::rlimit(60)]
pub fn commit_using<P: AccessPolicy, F: CommitFilesystem>(
    access: &mut P,
    filesystem: &mut RecordingFilesystem<F>,
    external: &[ExternalOutput],
    absent_targets: &[&FragmentPath],
    document: Option<DocumentOutput>,
) -> (r: Result<(), PolicyFailure<CommitAccessFailure<P::Error>, CommitError>>)
    ensures
        final(filesystem).effects() == old(filesystem).effects() + commit_effects(
            output_views(external@),
            path_ref_views(absent_targets@),
            document_output_view(document),
            r,
        ),
        commit_ended(output_views(external@), document_output_view(document), r),
{
    let ghost paths = output_paths(external@);
    let ghost absent = path_ref_views(absent_targets@);
    let ghost outs = output_views(external@);
    assert(view_paths(outs) =~= paths);
    let ghost start = filesystem.effects();
    match validate_order(external) {
        Ok(()) => {},
        Err(e) => {
            assert(paths.subrange(0, 0) =~= Seq::<Seq<u8>>::empty());
            assert(start + Seq::<FsEffect>::empty() =~= start);
            return Err(PolicyFailure::Operation(e));
        },
    }
    let mut completed: Vec<FragmentPath> = Vec::new();
    let mut k: usize = 0;
    assert(start + written_effects(outs, absent, 0) =~= start);
    while k < external.len()
        invariant
            k <= external@.len(),
            paths == output_paths(external@),
            absent == path_ref_views(absent_targets@),
            outs == output_views(external@),
            view_paths(outs) == paths,
            strictly_ordered(paths),
            path_views(completed@) == paths.subrange(0, k as int),
            completed@.len() == k,
            start == old(filesystem).effects(),
            filesystem.effects() == start + written_effects(outs, absent, k as int),
        decreases external@.len() - k,
    {
        let output = &external[k];
        assert(output.path@ == paths[k as int]);
        let ghost before = filesystem.effects();
        let ghost o = outs[k as int];
        if let Some(parent) = nonempty_parent(output.path) {
            let made = filesystem.create_dir_all(parent);
            if let Err(source) = made {
                let destination = filesystem.external_destination(output.path);
                let e = CommitFailure::CreateExternalParent {
                    path: output.path.clone(),
                    destination,
                    source,
                }.after(completed);
                assert(e.completed_paths().len() == k);
                assert(dir_effects(o, Some(source@)) == seq![FsEffect::CreateDir { path: parent.spec_bytes(), failure: Some(source@) }]);
                let r: Result<(), PolicyFailure<CommitAccessFailure<P::Error>, CommitError>> = Err(PolicyFailure::Operation(e));
                assert(filesystem.effects() =~= start + commit_effects(outs, absent, document_output_view(document), r));
                return r;
            }
        }
        assert(filesystem.effects() =~= before + dir_effects(o, None));
        let ghost mid = filesystem.effects();
        let destination = filesystem.external_destination(output.path);
        let path = output.path;
        let bytes = output.bytes;
        let write = output.write;
        let written = write_external_through(access, filesystem, destination.as_str(), path, bytes, write, absent_targets);
        let aliased_target = match written {
            Ok(Ok(aliased_target)) => {
                assert(filesystem.effects() == mid.push(write_effect(o, absent, write_outcome(Ok(aliased_target)))));
                aliased_target
            },
            Err(source) => {
                let r: Result<(), PolicyFailure<CommitAccessFailure<P::Error>, CommitError>> = Err(
                    PolicyFailure::Access(CommitAccessFailure { source, completed }),
                );
                assert(filesystem.effects() =~= start + commit_effects(outs, absent, document_output_view(document), r));
                return r;
            },
            Ok(Err(source)) => {
                assert(filesystem.effects() == mid.push(write_effect(o, absent, WriteOutcome::Failed(source@))));
                let r = Err(
                    PolicyFailure::Operation(
                        CommitFailure::WriteExternal {
                            path: output.path.clone(),
                            destination,
                            source,
                        }.after(completed),
                    ),
                );
                assert(filesystem.effects() =~= start + commit_effects(outs, absent, document_output_view(document), r));
                return r;
            },
        };
        let ghost before_completed = completed@;
        completed.push(output.path.clone());
        proof {
            assert(path_views(completed@) =~= path_views(before_completed).push(output.path@));
            assert(paths.subrange(0, k + 1) =~= paths.subrange(0, k as int).push(paths[k as int]));
        }
        if let Some(other_path) = aliased_target {
            let r = Err(
                PolicyFailure::Operation(
                    CommitFailure::CreatedTargetAlias {
                        created_path: output.path.clone(),
                        other_path,
                    }.after(completed),
                ),
            );
            assert(filesystem.effects() =~= start + commit_effects(outs, absent, document_output_view(document), r));
            return r;
        }
        assert(filesystem.effects() =~= start + written_effects(outs, absent, k + 1));
        k = k + 1;
    }
    assert(paths.subrange(0, k as int) =~= paths);
    let ghost done = filesystem.effects();
    if let Some(document) = document {
        let bytes = document.bytes;
        let destination = document.destination;
        let written = write_document_through(access, filesystem, destination, bytes);
        match written {
            Ok(Ok(())) => {},
            Err(source) => {
                return Err(PolicyFailure::Access(CommitAccessFailure { source, completed }));
            },
            Ok(Err(source)) => {
                assert(filesystem.effects() == done.push(
                    FsEffect::WriteDocument { path: destination.spec_bytes(), bytes: bytes@, failure: Some(source@) },
                ));
                return Err(
                    PolicyFailure::Operation(
                        CommitFailure::WriteDocument {
                            destination: String::from_str(document.destination),
                            source,
                        }.after(completed),
                    ),
                );
            },
        }
    } else {
        assert(done + Seq::<FsEffect>::empty() =~= done);
    }
    Ok(())
}



} // verus!
