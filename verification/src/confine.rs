//! Confining paths to a root directory.
//!
//! The native backend resolves a path one component at a time, asking the
//! filesystem whether each step exists and where a symbolic link leads.
//! The decisions are made here, by a [`Resolver`] that the backend drives
//! with what the filesystem answers: it never hands back, nor asks about, a
//! path outside the root.

use vstd::prelude::*;
use vstd::utf8::*;
use crate::fs::{io_error_for, map_io_error, IoFailure, ToolFsError};
use crate::lines::{join_with, lemma_join_push, split_on};
use crate::path::{
    has_root, is_meaningful, join_parts, lemma_first_char_ascii, lexical_normalize, lexical_text,
    meaningful, path_parts, split_path,
};
use crate::text::{cat, lemma_encode_concat};

verus! {

/// The meaningful pieces among `parts`: neither empty nor `.`.
pub open spec fn meaningful_parts(parts: Seq<Seq<char>>) -> Seq<Seq<char>>
    decreases parts.len(),
{
    if parts.len() == 0 {
        Seq::<Seq<char>>::empty()
    } else if is_meaningful(parts.last()) {
        meaningful_parts(parts.drop_last()).push(parts.last())
    } else {
        meaningful_parts(parts.drop_last())
    }
}

/// A path's components after its root: its meaningful pieces, `..`
/// included.
pub open spec fn components(p: Seq<char>) -> Seq<Seq<char>> {
    meaningful_parts(path_parts(p))
}

/// The absolute path made of `parts`.
pub open spec fn render(parts: Seq<Seq<char>>) -> Seq<char> {
    seq!['/'] + join_with(parts, '/')
}

/// Whether `parts` begin with `root`.
pub open spec fn within(parts: Seq<Seq<char>>, root: Seq<Seq<char>>) -> bool {
    parts.len() >= root.len() && parts.take(root.len() as int) == root
}

/// Whether `p` is the root's path followed by further components.
pub open spec fn under_root(p: Seq<char>, root: Seq<Seq<char>>) -> bool {
    exists|rest: Seq<Seq<char>>| p == #[trigger] render(root + rest)
}

/// The character vectors' views.
pub open spec fn part_views(parts: Seq<Vec<char>>) -> Seq<Seq<char>> {
    parts.map_values(|p: Vec<char>| p@)
}

/// A copy of a character vector.
fn copy_chars(v: &Vec<char>) -> (r: Vec<char>)
    ensures
        r@ == v@,
{
    let r = v.clone();
    proof {
        assert forall|i: int| 0 <= i < v@.len() implies r@[i] == v@[i] by {
            assert(cloned::<char>(v[i], r[i]));
        }
        assert(r@ =~= v@);
    }
    r
}

/// Whether two character vectors are equal.
fn same_chars(a: &Vec<char>, b: &Vec<char>) -> (r: bool)
    ensures
        r == (a@ == b@),
{
    if a.len() != b.len() {
        return false;
    }
    let mut i: usize = 0;
    while i < a.len()
        invariant
            0 <= i <= a@.len(),
            a@.len() == b@.len(),
            a@.take(i as int) == b@.take(i as int),
        decreases a@.len() - i,
    {
        if a[i] != b[i] {
            return false;
        }
        proof {
            assert(a@.take(i + 1) == a@.take(i as int).push(a@[i as int]));
            assert(b@.take(i + 1) == b@.take(i as int).push(b@[i as int]));
        }
        i = i + 1;
    }
    proof {
        assert(a@.take(a@.len() as int) == a@);
        assert(b@.take(b@.len() as int) == b@);
    }
    true
}

/// The components of a path.
pub fn components_of(p: &str) -> (r: Vec<Vec<char>>)
    ensures
        part_views(r@) == components(p@),
{
    let pieces = split_path(p);
    let ghost sp = path_parts(p@);
    let mut out: Vec<Vec<char>> = Vec::new();
    let mut i: usize = 0;
    while i < pieces.len()
        invariant
            0 <= i <= pieces@.len(),
            pieces@.len() == sp.len(),
            forall|j: int| 0 <= j < pieces@.len() ==> #[trigger] pieces@[j]@ == sp[j],
            part_views(out@) == meaningful_parts(sp.take(i as int)),
        decreases pieces@.len() - i,
    {
        proof {
            assert(sp.take(i + 1).drop_last() == sp.take(i as int));
            assert(sp.take(i + 1).last() == sp[i as int]);
        }
        if meaningful(&pieces[i]) {
            let ghost before = out@;
            out.push(copy_chars(&pieces[i]));
            proof {
                assert(part_views(out@) =~= part_views(before).push(sp[i as int]));
            }
        }
        i = i + 1;
    }
    proof {
        assert(sp.take(pieces@.len() as int) == sp);
    }
    out
}

/// The absolute path made of `parts`.
fn render_parts(parts: &Vec<Vec<char>>) -> (r: String)
    ensures
        r@ == render(part_views(parts@)),
{
    let body = join_parts(parts, parts.len(), Ghost(part_views(parts@)));
    proof {
        assert(part_views(parts@).take(parts@.len() as int) == part_views(parts@));
        reveal_strlit("/");
    }
    cat("/", body.as_str())
}

/// Whether `parts` begin with `root`.
fn begins_with(parts: &Vec<Vec<char>>, root: &Vec<Vec<char>>) -> (r: bool)
    ensures
        r == within(part_views(parts@), part_views(root@)),
{
    if parts.len() < root.len() {
        return false;
    }
    let ghost pv = part_views(parts@);
    let ghost rv = part_views(root@);
    let mut i: usize = 0;
    while i < root.len()
        invariant
            0 <= i <= root@.len() <= parts@.len(),
            pv == part_views(parts@),
            rv == part_views(root@),
            pv.take(i as int) == rv.take(i as int),
        decreases root@.len() - i,
    {
        if !same_chars(&parts[i], &root[i]) {
            proof {
                assert(pv.take(root@.len() as int)[i as int] == pv[i as int]);
                assert(rv[i as int] == root@[i as int]@);
            }
            return false;
        }
        proof {
            assert(pv.take(i + 1) == pv.take(i as int).push(pv[i as int]));
            assert(rv.take(i + 1) == rv.take(i as int).push(rv[i as int]));
        }
        i = i + 1;
    }
    proof {
        assert(rv.take(root@.len() as int) == rv);
    }
    true
}

/// Whether `path` is absolute and its components begin with those of the
/// absolute `root`, as `Path::starts_with` compares them.
pub fn is_under(path: &str, root: &str) -> (r: bool)
    ensures
        r == (has_root(path@) && has_root(root@) && within(components(path@), components(root@))),
{
    let pb = path.as_bytes();
    let rb = root.as_bytes();
    proof {
        lemma_first_char_ascii(path@, '/');
        lemma_first_char_ascii(root@, '/');
    }
    if !(pb.len() > 0 && pb[0] == 47 && rb.len() > 0 && rb[0] == 47) {
        return false;
    }
    begins_with(&components_of(path), &components_of(root))
}

/// What the resolver needs from the filesystem next, or its answer.
pub enum ResolveAction {
    /// Look `path` up without following a final symbolic link.
    Inspect(String),
    /// Ask for the canonical form of `path`.
    Canonicalize(String),
    /// The resolution is over.
    Done(Result<String, ToolFsError>),
}

/// What the filesystem answered.
pub enum ResolveEvent {
    /// Something is at the inspected path (`Ok`), or the lookup failed.
    Inspected(Result<(), IoFailure>),
    /// The canonical form of the path, or how asking for it failed.
    Canonicalized(Result<String, IoFailure>),
}

/// A step of resolution, as the specification states it.
pub enum Step {
    /// Look this path up.
    Inspect(Seq<char>),
    /// Ask for this path's canonical form.
    Canonicalize(Seq<char>),
    /// Resolution ends with this path.
    Resolved(Seq<char>),
    /// The path is denied: it would leave the root.
    Denied,
    /// A lookup failed.
    Failed(IoFailure),
}

/// Whether `action` is `step`, for the path being resolved.
pub open spec fn action_is(action: ResolveAction, step: Step, path: Seq<char>) -> bool {
    match step {
        Step::Inspect(p) => action matches ResolveAction::Inspect(q) && q@ == p,
        Step::Canonicalize(p) => action matches ResolveAction::Canonicalize(q) && q@ == p,
        Step::Resolved(p) => action matches ResolveAction::Done(Ok(q)) && q@ == p,
        Step::Denied => action matches ResolveAction::Done(Err(ToolFsError::Denied(q))) && q@ == path,
        Step::Failed(failure) => action matches ResolveAction::Done(Err(e)) && io_error_for(
            path,
            failure,
            e,
        ),
    }
}

/// Taking pending components (the next one last) from `resolved`: `..`
/// steps back but never above the root, which denies the path; any other
/// component is appended and inspected; with none left, the resolved path
/// is the answer. Gives what is resolved and pending afterwards, and the
/// step.
pub open spec fn proceed_spec(root: Seq<Seq<char>>, resolved: Seq<Seq<char>>, pending: Seq<Seq<char>>) -> (
    Seq<Seq<char>>,
    Seq<Seq<char>>,
    Step,
)
    decreases pending.len(),
{
    if pending.len() == 0 {
        (resolved, pending, Step::Resolved(render(resolved)))
    } else {
        let part = pending.last();
        let rest = pending.drop_last();
        if part == seq!['.', '.'] {
            if resolved.len() <= root.len() {
                (resolved, rest, Step::Denied)
            } else {
                proceed_spec(root, resolved.drop_last(), rest)
            }
        } else {
            (resolved.push(part), rest, Step::Inspect(render(resolved.push(part))))
        }
    }
}

/// Resolves a path beneath a canonical root one component at a time.
pub struct Resolver {
    path: String,
    root: Vec<Vec<char>>,
    resolved: Vec<Vec<char>>,
    pending: Vec<Vec<char>>,
}

impl Resolver {
    /// The path being resolved, as given.
    pub closed spec fn given_path(&self) -> Seq<char> {
        self.path@
    }

    /// The canonical root's components.
    pub closed spec fn root_parts(&self) -> Seq<Seq<char>> {
        part_views(self.root@)
    }

    /// The components resolved so far.
    pub closed spec fn resolved_parts(&self) -> Seq<Seq<char>> {
        part_views(self.resolved@)
    }

    /// The components still to take, the next one last.
    pub closed spec fn pending_parts(&self) -> Seq<Seq<char>> {
        part_views(self.pending@)
    }

    /// The resolver's invariant: what is resolved lies under the root.
    pub open spec fn wf(&self) -> bool {
        within(self.resolved_parts(), self.root_parts())
    }

    /// Whether an action keeps to the root: every path it names, and every
    /// path it hands back, lies under the root.
    pub open spec fn keeps_to_root(&self, action: ResolveAction) -> bool {
        match action {
            ResolveAction::Inspect(p) => under_root(p@, self.root_parts()),
            ResolveAction::Canonicalize(p) => under_root(p@, self.root_parts()),
            ResolveAction::Done(Ok(p)) => under_root(p@, self.root_parts()),
            ResolveAction::Done(Err(_)) => true,
        }
    }

    /// The path of what is resolved.
    fn resolved_path(&self) -> (r: String)
        ensures
            r@ == render(self.resolved_parts()),
    {
        render_parts(&self.resolved)
    }

    /// Takes pending components until one needs the filesystem, as
    /// [`proceed_spec`] says.
    fn proceed(&mut self) -> (action: ResolveAction)
        ensures
            ({
                let (resolved, pending, step) = proceed_spec(
                    old(self).root_parts(),
                    old(self).resolved_parts(),
                    old(self).pending_parts(),
                );
                &&& final(self).resolved_parts() == resolved
                &&& final(self).pending_parts() == pending
                &&& action_is(action, step, old(self).given_path())
            }),
            final(self).root_parts() == old(self).root_parts(),
            final(self).given_path() == old(self).given_path(),
        decreases old(self).pending_parts().len(),
    {
        let ghost before_resolved = self.resolved_parts();
        let ghost before_pending = self.pending_parts();
        let part = match self.pending.pop() {
            Some(part) => part,
            None => {
                return ResolveAction::Done(Ok(self.resolved_path()));
            },
        };
        proof {
            assert(self.pending_parts() =~= before_pending.drop_last());
            assert(part@ == before_pending.last());
        }
        let parent_step = part.len() == 2 && part[0] == '.' && part[1] == '.';
        proof {
            if part@.len() == 2 && part@[0] == '.' && part@[1] == '.' {
                assert(part@ =~= seq!['.', '.']);
            }
        }
        if parent_step {
            if self.resolved.len() <= self.root.len() {
                return ResolveAction::Done(Err(ToolFsError::Denied(self.path.clone())));
            }
            self.resolved.pop();
            proof {
                assert(self.resolved_parts() =~= before_resolved.drop_last());
            }
            self.proceed()
        } else {
            self.resolved.push(part);
            proof {
                assert(self.resolved_parts() =~= before_resolved.push(part@));
            }
            ResolveAction::Inspect(self.resolved_path())
        }
    }

    /// Starts resolving `path` beneath the backend's `root`, whose canonical
    /// form is `canonical_root`; both are absolute.
    ///
    /// A relative path is taken from the canonical root. An absolute path
    /// must begin with the root, lexically normalized, or with the canonical
    /// root; what follows is taken from the canonical root. Any other path
    /// is denied.
    pub fn start(root: &str, canonical_root: &str, path: &str) -> (r: (Resolver, ResolveAction))
        requires
            has_root(root@),
            has_root(canonical_root@),
        ensures
            r.0.wf(),
            r.0.keeps_to_root(r.1),
            r.0.root_parts() == components(canonical_root@),
            r.0.given_path() == path@,
            ({
                let given = components(path@);
                let lexical = components(lexical_text(root@));
                let canonical = components(canonical_root@);
                let skip: int = if !has_root(path@) {
                    0
                } else if within(given, lexical) {
                    lexical.len() as int
                } else if within(given, canonical) {
                    canonical.len() as int
                } else {
                    -1
                };
                if skip < 0 {
                    action_is(r.1, Step::Denied, path@)
                } else {
                    let (resolved, pending, step) = proceed_spec(
                        canonical,
                        canonical,
                        given.skip(skip).reverse(),
                    );
                    &&& r.0.resolved_parts() == resolved
                    &&& r.0.pending_parts() == pending
                    &&& action_is(r.1, step, path@)
                }
            }),
    {
        let lexical_root = lexical_normalize(root);
        let canonical = components_of(canonical_root);
        let given = components_of(path);
        let pb = path.as_bytes();
        proof {
            lemma_first_char_ascii(path@, '/');
        }
        let absolute = pb.len() > 0 && pb[0] == 47;
        let skip: usize = if absolute {
            let lexical = components_of(lexical_root.as_str());
            if begins_with(&given, &lexical) {
                lexical.len()
            } else if begins_with(&given, &canonical) {
                canonical.len()
            } else {
                let resolver = Resolver {
                    path: path.to_string(),
                    root: copy_parts(&canonical),
                    resolved: canonical,
                    pending: Vec::new(),
                };
                proof {
                    let rv = resolver.root_parts();
                    assert(rv.take(rv.len() as int) =~= rv);
                }
                return (resolver, ResolveAction::Done(Err(ToolFsError::Denied(path.to_string()))));
            }
        } else {
            0
        };
        let ghost gv = part_views(given@);
        let mut pending: Vec<Vec<char>> = Vec::new();
        let mut k: usize = given.len();
        proof {
            assert(part_views(pending@) =~= gv.subrange(k as int, gv.len() as int).reverse());
        }
        while k > skip
            invariant
                skip <= k <= given@.len(),
                gv == part_views(given@),
                part_views(pending@) == gv.subrange(k as int, gv.len() as int).reverse(),
            decreases k,
        {
            k = k - 1;
            let ghost before = part_views(pending@);
            pending.push(copy_chars(&given[k]));
            proof {
                let now = gv.subrange(k as int, gv.len() as int);
                let was = gv.subrange(k + 1, gv.len() as int);
                assert(part_views(pending@) =~= before.push(gv[k as int]));
                assert forall|j: int| 0 <= j < now.len() implies #[trigger] now.reverse()[j]
                    == part_views(pending@)[j] by {
                    if j < now.len() - 1 {
                        assert(before[j] == was.reverse()[j]);
                    }
                }
                assert(part_views(pending@) =~= now.reverse());
            }
        }
        proof {
            assert(gv.subrange(skip as int, gv.len() as int) =~= gv.skip(skip as int));
        }
        let mut resolver = Resolver {
            path: path.to_string(),
            root: copy_parts(&canonical),
            resolved: canonical,
            pending,
        };
        proof {
            let rv = resolver.root_parts();
            assert(rv.take(rv.len() as int) =~= rv);
            law_resolution_stays_under_root(rv, resolver.resolved_parts(), resolver.pending_parts());
        }
        let action = resolver.proceed();
        (resolver, action)
    }

    /// Takes the filesystem's answer and says what to do next.
    ///
    /// Something found at an inspected path is canonicalized; nothing found
    /// lets resolution go on; a canonical form must still lie under the
    /// root, or the path is denied. Other failures end resolution with the
    /// backend error for the path.
    pub fn advance(&mut self, event: ResolveEvent) -> (action: ResolveAction)
        requires
            old(self).wf(),
        ensures
            final(self).wf(),
            final(self).keeps_to_root(action),
            final(self).root_parts() == old(self).root_parts(),
            final(self).given_path() == old(self).given_path(),
            match event {
                ResolveEvent::Inspected(Ok(())) => final(self).resolved_parts() == old(
                    self,
                ).resolved_parts() && final(self).pending_parts() == old(self).pending_parts()
                    && action_is(
                    action,
                    Step::Canonicalize(render(old(self).resolved_parts())),
                    old(self).given_path(),
                ),
                ResolveEvent::Inspected(Err(IoFailure::NotFound)) => {
                    let (resolved, pending, step) = proceed_spec(
                        old(self).root_parts(),
                        old(self).resolved_parts(),
                        old(self).pending_parts(),
                    );
                    &&& final(self).resolved_parts() == resolved
                    &&& final(self).pending_parts() == pending
                    &&& action_is(action, step, old(self).given_path())
                },
                ResolveEvent::Inspected(Err(failure)) => action_is(
                    action,
                    Step::Failed(failure),
                    old(self).given_path(),
                ),
                ResolveEvent::Canonicalized(Ok(canonical)) => if has_root(canonical@) && within(
                    components(canonical@),
                    old(self).root_parts(),
                ) {
                    let (resolved, pending, step) = proceed_spec(
                        old(self).root_parts(),
                        components(canonical@),
                        old(self).pending_parts(),
                    );
                    &&& final(self).resolved_parts() == resolved
                    &&& final(self).pending_parts() == pending
                    &&& action_is(action, step, old(self).given_path())
                } else {
                    action_is(action, Step::Denied, old(self).given_path())
                },
                ResolveEvent::Canonicalized(Err(failure)) => action_is(
                    action,
                    Step::Failed(failure),
                    old(self).given_path(),
                ),
            },
    {
        match event {
            ResolveEvent::Inspected(Ok(())) => {
                proof {
                    lemma_render_under_root(self.resolved_parts(), self.root_parts());
                }
                ResolveAction::Canonicalize(self.resolved_path())
            },
            ResolveEvent::Inspected(Err(IoFailure::NotFound)) => {
                proof {
                    law_resolution_stays_under_root(
                        self.root_parts(),
                        self.resolved_parts(),
                        self.pending_parts(),
                    );
                }
                self.proceed()
            },
            ResolveEvent::Inspected(Err(failure)) => ResolveAction::Done(
                Err(map_io_error(self.path.as_str(), failure)),
            ),
            ResolveEvent::Canonicalized(Ok(canonical)) => {
                let cb = canonical.as_str().as_bytes();
                proof {
                    lemma_first_char_ascii(canonical@, '/');
                }
                let parts = components_of(canonical.as_str());
                if cb.len() > 0 && cb[0] == 47 && begins_with(&parts, &self.root) {
                    self.resolved = parts;
                    proof {
                        law_resolution_stays_under_root(
                            self.root_parts(),
                            self.resolved_parts(),
                            self.pending_parts(),
                        );
                    }
                    self.proceed()
                } else {
                    ResolveAction::Done(Err(ToolFsError::Denied(self.path.clone())))
                }
            },
            ResolveEvent::Canonicalized(Err(failure)) => ResolveAction::Done(
                Err(map_io_error(self.path.as_str(), failure)),
            ),
        }
    }
}

/// Resolution keeps to the root: from components under the root, taking
/// pending components leaves what is resolved under the root, and every
/// path the step names lies under it.
pub proof fn law_resolution_stays_under_root(
    root: Seq<Seq<char>>,
    resolved: Seq<Seq<char>>,
    pending: Seq<Seq<char>>,
)
    requires
        within(resolved, root),
    ensures
        ({
            let (after, _, step) = proceed_spec(root, resolved, pending);
            &&& within(after, root)
            &&& step matches Step::Inspect(p) ==> under_root(p, root)
            &&& step matches Step::Resolved(p) ==> under_root(p, root)
            &&& !(step is Canonicalize)
        }),
    decreases pending.len(),
{
    let (after, _, step) = proceed_spec(root, resolved, pending);
    if pending.len() == 0 {
        lemma_render_under_root(resolved, root);
    } else {
        let part = pending.last();
        let rest = pending.drop_last();
        if part == seq!['.', '.'] {
            if resolved.len() > root.len() {
                assert(resolved.drop_last().take(root.len() as int) =~= resolved.take(
                    root.len() as int,
                ));
                law_resolution_stays_under_root(root, resolved.drop_last(), rest);
            }
        } else {
            assert(resolved.push(part).take(root.len() as int) =~= resolved.take(root.len() as int));
            lemma_render_under_root(resolved.push(part), root);
        }
    }
}

/// Components under the root render to a path under the root.
proof fn lemma_render_under_root(parts: Seq<Seq<char>>, root: Seq<Seq<char>>)
    requires
        within(parts, root),
    ensures
        under_root(render(parts), root),
{
    let rest = parts.skip(root.len() as int);
    assert(root + rest =~= parts);
    assert(render(parts) == render(root + rest));
}

/// A copy of a list of character vectors.
fn copy_parts(parts: &Vec<Vec<char>>) -> (r: Vec<Vec<char>>)
    ensures
        part_views(r@) == part_views(parts@),
{
    let mut out: Vec<Vec<char>> = Vec::new();
    let mut i: usize = 0;
    while i < parts.len()
        invariant
            0 <= i <= parts@.len(),
            part_views(out@) == part_views(parts@).take(i as int),
        decreases parts@.len() - i,
    {
        let ghost before = out@;
        out.push(copy_chars(&parts[i]));
        proof {
            assert(part_views(out@) =~= part_views(before).push(parts@[i as int]@));
            assert(part_views(parts@).take(i + 1) =~= part_views(parts@).take(i as int).push(
                parts@[i as int]@,
            ));
        }
        i = i + 1;
    }
    proof {
        assert(part_views(parts@).take(parts@.len() as int) == part_views(parts@));
    }
    out
}

/// What a stat says of a path about to be opened.
#[derive(Clone, Copy, Debug, PartialEq, Eq, Structural)]
pub enum OpenTarget {
    File,
    Directory,
    /// A FIFO, socket, device or anything else that is neither.
    Other,
}

/// The error text for opening something that is not a regular file.
pub open spec fn not_regular_text(path: Seq<char>) -> Seq<char> {
    "path is not a regular file: "@ + path
}

/// Whether `path` may be opened, given what its stat said: files and
/// directories may; anything else is refused before it is opened, so a FIFO
/// cannot block. A missing path may be opened only to create it.
pub fn check_open_target(path: &str, target: Result<OpenTarget, IoFailure>, allow_missing: bool) -> (r:
    Result<(), ToolFsError>)
    ensures
        match target {
            Ok(OpenTarget::Other) => r matches Err(ToolFsError::Io(text)) && text@ == not_regular_text(
                path@,
            ),
            Ok(_) => r is Ok,
            Err(IoFailure::NotFound) => if allow_missing {
                r is Ok
            } else {
                r matches Err(ToolFsError::NotFound(p)) && p@ == path@
            },
            Err(failure) => r matches Err(e) && io_error_for(path@, failure, e),
        },
{
    match target {
        Ok(OpenTarget::Other) => Err(ToolFsError::Io(cat("path is not a regular file: ", path))),
        Ok(_) => Ok(()),
        Err(IoFailure::NotFound) => if allow_missing {
            Ok(())
        } else {
            Err(ToolFsError::NotFound(path.to_string()))
        },
        Err(failure) => Err(map_io_error(path, failure)),
    }
}

/// A bounded read that took more than `max_bytes` is refused whole.
pub fn check_read_size(path: &str, read: usize, max_bytes: usize) -> (r: Result<(), ToolFsError>)
    ensures
        read <= max_bytes <==> r is Ok,
        r matches Err(e) ==> (e matches ToolFsError::FileTooLarge { path: p, max_bytes: m } && p@
            == path@ && m == max_bytes),
{
    if read > max_bytes {
        Err(ToolFsError::FileTooLarge { path: path.to_string(), max_bytes })
    } else {
        Ok(())
    }
}

} // verus!
