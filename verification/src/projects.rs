//! Project lifecycle operations: name validation and uniqueness,
//! publishing, role and collaborator edits, and thumbnail extraction.
//!
//! Each operation is a function from the stored metadata (and any values
//! the embedding layer fetched) to the updated metadata or an error; the
//! store writes themselves happen outside the core.

use vstd::prelude::*;

use crate::errors::{InternalError, UserError};
use crate::ids::RoleId;
use crate::strmap::StrMap;
use crate::strutil::{
    find_char_from, find_sub, lemma_decimal_injective, match_at, spec_decimal, spec_find_from,
    str_eq, u64_to_string,
};
use crate::types::{ProjectMetadata, PublishState, RoleData, RoleMetadata};

verus! {

/// The longest accepted project or role name.
pub const MAX_NAME_LEN: usize = 128;

/// A name is valid when it is non-empty, no longer than `MAX_NAME_LEN`,
/// and contains no `@` (which the address syntax reserves).
pub open spec fn spec_valid_name(s: Seq<char>) -> bool {
    1 <= s.len() <= MAX_NAME_LEN && forall|i: int| 0 <= i < s.len() ==> s[i] != '@'
}

pub fn ensure_valid_name(name: &str) -> (r: Result<(), UserError>)
    ensures
        match r {
            Ok(u) => spec_valid_name(name@),
            Err(e) => !spec_valid_name(name@) && e == UserError::InvalidNameError,
        },
{
    let len = name.unicode_len();
    if len == 0 || len > MAX_NAME_LEN {
        return Err(UserError::InvalidNameError);
    }
    match find_char_from(name, '@', 0) {
        Some(_) => Err(UserError::InvalidNameError),
        None => Ok(()),
    }
}

/// Some entry of `existing` has exactly this name.
pub open spec fn name_taken(existing: Seq<String>, name: Seq<char>) -> bool {
    exists|i: int| 0 <= i < existing.len() && existing[i]@ == name
}

/// The `k`-th numbered variant of a base name: `base (k)`.
pub open spec fn spec_numbered_name(base: Seq<char>, k: nat) -> Seq<char> {
    base + " ("@ + spec_decimal(k) + ")"@
}

proof fn lemma_numbered_name_injective(base: Seq<char>, k1: nat, k2: nat)
    requires
        spec_numbered_name(base, k1) == spec_numbered_name(base, k2),
    ensures
        k1 == k2,
{
    let s1 = spec_numbered_name(base, k1);
    let s2 = spec_numbered_name(base, k2);
    let p = base.len() + " ("@.len();
    assert(s1.len() == p + spec_decimal(k1).len() + ")"@.len());
    assert(s2.len() == p + spec_decimal(k2).len() + ")"@.len());
    assert(spec_decimal(k1).len() == spec_decimal(k2).len());
    assert(s1.subrange(p as int, (p + spec_decimal(k1).len()) as int) =~= spec_decimal(k1));
    assert(s2.subrange(p as int, (p + spec_decimal(k2).len()) as int) =~= spec_decimal(k2));
    lemma_decimal_injective(k1, k2);
}

fn is_name_taken(existing: &Vec<String>, name: &str) -> (r: bool)
    ensures
        r == name_taken(existing@, name@),
{
    let n = existing.len();
    let mut i: usize = 0;
    while i < n
        invariant
            n == existing@.len(),
            i <= n,
            forall|j: int| 0 <= j < i ==> existing@[j]@ != name@,
        decreases n - i,
    {
        if str_eq(existing[i].as_str(), name) {
            proof {
                assert(existing@[i as int]@ == name@);
            }
            return true;
        }
        i = i + 1;
    }
    false
}

fn make_numbered_name(base: &str, k: u64) -> (r: String)
    ensures
        r@ == spec_numbered_name(base@, k as nat),
{
    let digits = u64_to_string(k);
    let mut r = base.to_owned();
    r.append(" (");
    r.append(digits.as_str());
    r.append(")");
    r
}

/// If every numbered variant of `base` over a window one wider than
/// `existing` were taken, two variants would share an entry; so some
/// variant in the window is free.
proof fn lemma_numbered_name_available(existing: Seq<String>, base: Seq<char>, lo: nat)
    ensures
        exists|k: nat|
            lo <= k < lo + existing.len() + 1 && !name_taken(
                existing,
                spec_numbered_name(base, k),
            ),
    decreases existing.len(),
{
    if name_taken(existing, spec_numbered_name(base, lo)) {
        let i0 = choose|i: int|
            0 <= i < existing.len() && existing[i]@ == spec_numbered_name(base, lo);
        let rest = existing.remove(i0);
        lemma_numbered_name_available(rest, base, lo + 1);
        let k = choose|k: nat|
            lo + 1 <= k < lo + 1 + rest.len() + 1 && !name_taken(
                rest,
                spec_numbered_name(base, k),
            );
        assert(!name_taken(existing, spec_numbered_name(base, k))) by {
            if name_taken(existing, spec_numbered_name(base, k)) {
                let i = choose|i: int|
                    0 <= i < existing.len() && existing[i]@ == spec_numbered_name(base, k);
                assert(i != i0) by {
                    if i == i0 {
                        lemma_numbered_name_injective(base, k, lo);
                    }
                }
                let ir: int = if i < i0 { i } else { i - 1 };
                assert(rest[ir] == existing[i]);
                assert(name_taken(rest, spec_numbered_name(base, k)));
            }
        }
    } else {
        assert(lo <= lo < lo + existing.len() + 1 && !name_taken(
            existing,
            spec_numbered_name(base, lo),
        ));
    }
}

/// Picks a name for the given base that no existing name collides with:
/// the base itself when it is free, otherwise `base (k)` for the smallest
/// `k >= 2` that is free.
pub fn get_unique_name(existing: &Vec<String>, basename: &str) -> (r: String)
    requires
        existing@.len() + 3 < u64::MAX,
    ensures
        !name_taken(existing@, r@),
        !name_taken(existing@, basename@) ==> r@ == basename@,
        name_taken(existing@, basename@) ==> exists|k: nat|
            2 <= k && r@ == spec_numbered_name(basename@, k) && (forall|j: nat|
                2 <= j < k ==> name_taken(existing@, spec_numbered_name(basename@, j))),
{
    if !is_name_taken(existing, basename) {
        return basename.to_owned();
    }
    let n = existing.len() as u64;
    let mut k: u64 = 2;
    while k < n + 3
        invariant
            n == existing@.len(),
            n + 3 < u64::MAX,
            2 <= k <= n + 3,
            name_taken(existing@, basename@),
            forall|j: nat| 2 <= j < k as nat ==> name_taken(existing@, spec_numbered_name(basename@, j)),
        decreases n + 3 - k,
    {
        let candidate = make_numbered_name(basename, k);
        if !is_name_taken(existing, candidate.as_str()) {
            proof {
                assert(2 <= k as nat && candidate@ == spec_numbered_name(basename@, k as nat));
            }
            return candidate;
        }
        k = k + 1;
    }
    proof {
        lemma_numbered_name_available(existing@, basename@, 2);
        let k0 = choose|k0: nat|
            2 <= k0 < 2 + existing@.len() + 1 && !name_taken(
                existing@,
                spec_numbered_name(basename@, k0),
            );
        assert(name_taken(existing@, spec_numbered_name(basename@, k0)));
        assert(false);
    }
    basename.to_owned()
}

/// Validates the base name and picks a free name for the owner: the
/// combined check used when creating or renaming a project.
pub fn get_valid_project_name(existing: &Vec<String>, basename: &str) -> (r: Result<
    String,
    UserError,
>)
    requires
        existing@.len() + 3 < u64::MAX,
    ensures
        match r {
            Ok(name) => spec_valid_name(basename@) && !name_taken(existing@, name@)
                && (!name_taken(existing@, basename@) ==> name@ == basename@)
                && (name_taken(existing@, basename@) ==> exists|k: nat|
                    2 <= k && name@ == spec_numbered_name(basename@, k) && (forall|j: nat|
                        2 <= j < k ==> name_taken(existing@, spec_numbered_name(basename@, j)))),
            Err(e) => !spec_valid_name(basename@) && e == UserError::InvalidNameError,
        },
{
    match ensure_valid_name(basename) {
        Err(e) => Err(e),
        Ok(u) => Ok(get_unique_name(existing, basename)),
    }
}

/// The metadata with its visibility replaced.
pub open spec fn spec_with_state(m: ProjectMetadata, s: PublishState) -> ProjectMetadata {
    ProjectMetadata { state: s, ..m }
}

/// The publish transition: pending approval when any role's code needs
/// approval, public otherwise.
pub open spec fn spec_publish(m: ProjectMetadata, approval_required: bool) -> (
    ProjectMetadata,
    PublishState,
) {
    let s = if approval_required {
        PublishState::PendingApproval
    } else {
        PublishState::Public
    };
    (spec_with_state(m, s), s)
}

/// The unpublish transition: always private.
pub open spec fn spec_unpublish(m: ProjectMetadata) -> (ProjectMetadata, PublishState) {
    (spec_with_state(m, PublishState::Private), PublishState::Private)
}

/// Publishes a project.  Whether approval is required is decided by the
/// caller from the role contents (a library scan outside this function).
pub fn publish_project(metadata: ProjectMetadata, approval_required: bool) -> (r: (
    ProjectMetadata,
    PublishState,
))
    ensures
        r == spec_publish(metadata, approval_required),
{
    let state = if approval_required {
        PublishState::PendingApproval
    } else {
        PublishState::Public
    };
    (ProjectMetadata { state, ..metadata }, state)
}

/// Unpublishes a project.
pub fn unpublish_project(metadata: ProjectMetadata) -> (r: (ProjectMetadata, PublishState))
    ensures
        r == spec_unpublish(metadata),
{
    (ProjectMetadata { state: PublishState::Private, ..metadata }, PublishState::Private)
}

/// Publishing is idempotent when approval is not required: a second
/// publish returns the same metadata and state.
pub proof fn lemma_publish_idempotent(m: ProjectMetadata)
    ensures
        spec_publish(spec_publish(m, false).0, false) == spec_publish(m, false),
{
}

/// Unpublishing is idempotent.
pub proof fn lemma_unpublish_idempotent(m: ProjectMetadata)
    ensures
        spec_unpublish(spec_unpublish(m).0) == spec_unpublish(m),
{
}

/// Renames a project to a validated, owner-unique variant of the
/// requested name.  `existing_names` are the owner's current project
/// names, as fetched from the store.
pub fn rename_project(
    metadata: ProjectMetadata,
    existing_names: &Vec<String>,
    new_name: &str,
) -> (r: Result<ProjectMetadata, UserError>)
    requires
        existing_names@.len() + 3 < u64::MAX,
    ensures
        match r {
            Ok(m) => spec_valid_name(new_name@) && m == (ProjectMetadata { name: m.name, ..metadata })
                && !name_taken(existing_names@, m.name@)
                && (!name_taken(existing_names@, new_name@) ==> m.name@ == new_name@)
                && (name_taken(existing_names@, new_name@) ==> exists|k: nat|
                    2 <= k && m.name@ == spec_numbered_name(new_name@, k) && (forall|j: nat|
                        2 <= j < k ==> name_taken(existing_names@, spec_numbered_name(new_name@, j)))),
            Err(e) => !spec_valid_name(new_name@) && e == UserError::InvalidNameError,
        },
{
    match get_valid_project_name(existing_names, new_name) {
        Err(e) => Err(e),
        Ok(name) => Ok(ProjectMetadata { name, ..metadata }),
    }
}

/// Renames a role.  The name must be valid and the role must exist.
pub fn rename_role(metadata: ProjectMetadata, role_id: &RoleId, name: &str) -> (r: Result<
    ProjectMetadata,
    UserError,
>)
    requires
        metadata.wf(),
    ensures
        match r {
            Ok(m) => spec_valid_name(name@) && metadata.roles@.contains_key(role_id@) && m.wf()
                && m == (ProjectMetadata { roles: m.roles, ..metadata })
                && m.roles@.contains_key(role_id@)
                && m.roles@[role_id@].name@ == name@
                && m.roles@[role_id@].code == metadata.roles@[role_id@].code
                && m.roles@[role_id@].media == metadata.roles@[role_id@].media
                && m.roles@[role_id@].updated == metadata.roles@[role_id@].updated
                && m.roles@.dom() == metadata.roles@.dom()
                && (forall|k: Seq<char>|
                    m.roles@.contains_key(k) && k != role_id@ ==> m.roles@[k]
                        == metadata.roles@[k]),
            Err(e) => (!spec_valid_name(name@) && e == UserError::InvalidNameError)
                || (spec_valid_name(name@) && !metadata.roles@.contains_key(role_id@)
                    && e == UserError::RoleNotFoundError),
        },
{
    match ensure_valid_name(name) {
        Err(e) => Err(e),
        Ok(u) => {
            let mut md = metadata;
            let taken = md.roles.remove(role_id.as_str());
            match taken {
                Some(role) => {
                    let renamed = RoleMetadata { name: name.to_owned(), ..role };
                    let key = role_id.as_str().to_owned();
                    md.roles.insert(key, renamed);
                    proof {
                        assert(md.roles@.dom() =~= metadata.roles@.dom());
                    }
                    Ok(md)
                },
                None => Err(UserError::RoleNotFoundError),
            }
        },
    }
}

/// Deletes a role; refused when it would leave the project without roles.
pub fn delete_role(metadata: ProjectMetadata, role_id: &RoleId) -> (r: Result<
    ProjectMetadata,
    UserError,
>)
    requires
        metadata.wf(),
    ensures
        match r {
            Ok(m) => metadata.roles@.dom().len() != 1 && m.wf()
                && m == (ProjectMetadata { roles: m.roles, ..metadata })
                && m.roles@ == metadata.roles@.remove(role_id@),
            Err(e) => metadata.roles@.dom().len() == 1 && e
                == UserError::CannotDeleteLastRoleError,
        },
{
    let mut metadata = metadata;
    if metadata.roles.len() == 1 {
        return Err(UserError::CannotDeleteLastRoleError);
    }
    metadata.roles.remove(role_id.as_str());
    Ok(metadata)
}

/// Adds a role under a fresh or existing identifier.
pub fn add_role(metadata: ProjectMetadata, role_id: &RoleId, role: RoleMetadata) -> (r:
    ProjectMetadata)
    requires
        metadata.wf(),
    ensures
        r.wf(),
        r == (ProjectMetadata { roles: r.roles, ..metadata }),
        r.roles@ == metadata.roles@.insert(role_id@, role),
{
    let mut metadata = metadata;
    let key = role_id.as_str().to_owned();
    metadata.roles.insert(key, role);
    metadata
}

/// Adds a collaborator with set semantics: already-present names leave
/// the list unchanged.
pub fn add_collaborator(metadata: ProjectMetadata, name: String) -> (r: ProjectMetadata)
    ensures
        r == (ProjectMetadata { collaborators: r.collaborators, ..metadata }),
        name_taken(metadata.collaborators@, name@) ==> r.collaborators
            == metadata.collaborators,
        !name_taken(metadata.collaborators@, name@) ==> r.collaborators@
            == metadata.collaborators@.push(name),
{
    let mut metadata = metadata;
    if !is_name_taken(&metadata.collaborators, name.as_str()) {
        metadata.collaborators.push(name);
    }
    metadata
}

/// Removes every occurrence of a collaborator.
pub fn remove_collaborator(metadata: ProjectMetadata, name: &str) -> (r: ProjectMetadata)
    ensures
        r == (ProjectMetadata { collaborators: r.collaborators, ..metadata }),
        r.collaborators@ == metadata.collaborators@.filter(|c: String| c@ != name@),
        !name_taken(r.collaborators@, name@),
{
    let n = metadata.collaborators.len();
    let mut kept: Vec<String> = Vec::new();
    proof {
        reveal(Seq::filter);
        assert(metadata.collaborators@.subrange(0, 0) =~= Seq::<String>::empty());
    }
    let mut i: usize = 0;
    while i < n
        invariant
            n == metadata.collaborators@.len(),
            i <= n,
            kept@ == metadata.collaborators@.subrange(0, i as int).filter(|c: String| c@ != name@),
        decreases n - i,
    {
        proof {
            reveal(Seq::filter);
            let f = |c: String| c@ != name@;
            let prefix = metadata.collaborators@.subrange(0, i + 1);
            assert(prefix.drop_last() =~= metadata.collaborators@.subrange(0, i as int));
            assert(prefix.last() == metadata.collaborators@[i as int]);
            assert(prefix.filter(f) == if f(prefix.last()) {
                prefix.drop_last().filter(f).push(prefix.last())
            } else {
                prefix.drop_last().filter(f)
            });
        }
        let c = &metadata.collaborators[i];
        if !str_eq(c.as_str(), name) {
            kept.push(c.clone());
        }
        i = i + 1;
    }
    proof {
        assert(metadata.collaborators@.subrange(0, n as int) =~= metadata.collaborators@);
        let f = |c: String| c@ != name@;
        assert forall|j: int| 0 <= j < kept@.len() implies kept@[j]@ != name@ by {
            metadata.collaborators@.lemma_filter_pred(f, j);
        }
    }
    ProjectMetadata { collaborators: kept, ..metadata }
}

/// The stored description of one role, or the error every role fetch
/// reports for an unknown role.
pub fn find_role<'a>(metadata: &'a ProjectMetadata, role_id: &RoleId) -> (r: Result<
    &'a RoleMetadata,
    UserError,
>)
    requires
        metadata.wf(),
    ensures
        match r {
            Ok(role) => metadata.roles@.contains_key(role_id@) && *role
                == metadata.roles@[role_id@],
            Err(e) => !metadata.roles@.contains_key(role_id@) && e
                == UserError::RoleNotFoundError,
        },
{
    match metadata.roles.get(role_id.as_str()) {
        Some(role) => Ok(role),
        None => Err(UserError::RoleNotFoundError),
    }
}

/// The role whose metadata was updated most recently; the last such role
/// wins a tie.  Fails when the project has no roles.
pub fn latest_role(metadata: &ProjectMetadata) -> (r: Result<&RoleMetadata, UserError>)
    ensures
        match r {
            Ok(role) => exists|i: int|
                0 <= i < metadata.roles.entries().len() && role == metadata.roles.entries()[i].1
                    && (forall|j: int|
                        0 <= j < metadata.roles.entries().len()
                            ==> metadata.roles.entries()[j].1.updated <= role.updated)
                    && (forall|j: int|
                        i < j < metadata.roles.entries().len()
                            ==> metadata.roles.entries()[j].1.updated < role.updated),
            Err(e) => metadata.roles.entries().len() == 0 && e
                == UserError::ThumbnailNotFoundError,
        },
{
    let n = metadata.roles.len();
    if n == 0 {
        return Err(UserError::ThumbnailNotFoundError);
    }
    let mut best: usize = 0;
    let mut i: usize = 1;
    while i < n
        invariant
            n == metadata.roles.entries().len(),
            best < i <= n,
            forall|j: int| 0 <= j < i
                ==> metadata.roles.entries()[j].1.updated
                    <= metadata.roles.entries()[best as int].1.updated,
            forall|j: int| best < j < i
                ==> metadata.roles.entries()[j].1.updated
                    < metadata.roles.entries()[best as int].1.updated,
        decreases n - i,
    {
        if metadata.roles.value_at(i).updated >= metadata.roles.value_at(best).updated {
            best = i;
        }
        i = i + 1;
    }
    Ok(metadata.roles.value_at(best))
}

/// The markers delimiting an embedded thumbnail in role code.
pub open spec fn thumb_start_marker() -> Seq<char> {
    "<thumbnail>data:image/png;base64,"@
}

pub open spec fn thumb_end_marker() -> Seq<char> {
    "</thumbnail>"@
}

/// The base64 text of the thumbnail embedded in role code: the text after
/// the first start marker, cut at the next start marker if any, then cut
/// at the first end marker if any.
pub open spec fn spec_thumbnail_fragment(code: Seq<char>) -> Option<Seq<char>> {
    match spec_find_from(code, thumb_start_marker(), 0) {
        None => None,
        Some(m1) => {
            let from = m1 + thumb_start_marker().len();
            let piece = match spec_find_from(code, thumb_start_marker(), from) {
                Some(m2) => code.subrange(from as int, m2 as int),
                None => code.subrange(from as int, code.len() as int),
            };
            match spec_find_from(piece, thumb_end_marker(), 0) {
                Some(e) => Some(piece.subrange(0, e as int)),
                None => Some(piece),
            }
        },
    }
}

/// Extracts the base64 text of the embedded thumbnail, if any.
pub fn thumbnail_fragment(code: &str) -> (r: Option<String>)
    ensures
        match r {
            Some(f) => spec_thumbnail_fragment(code@) == Some(f@),
            None => spec_thumbnail_fragment(code@) is None,
        },
{
    let start = "<thumbnail>data:image/png;base64,";
    let end = "</thumbnail>";
    let code_len = code.unicode_len();
    let m1 = match find_sub(code, start) {
        None => {
            return None;
        },
        Some(m1) => m1,
    };
    proof {
        assert(m1 + start@.len() <= code@.len());
    }
    let from = m1 + start.unicode_len();
    let piece_end = match find_sub_from(code, start, from) {
        Some(m2) => m2,
        None => code_len,
    };
    let piece = code.substring_char(from, piece_end);
    let fragment = match find_sub(piece, end) {
        Some(e) => piece.substring_char(0, e),
        None => piece,
    };
    Some(fragment.to_owned())
}

/// First occurrence of `pat` in `s` at or after `from`.
fn find_sub_from(s: &str, pat: &str, from: usize) -> (r: Option<usize>)
    requires
        from <= s@.len(),
    ensures
        match r {
            Some(i) => spec_find_from(s@, pat@, from as nat) == Some(i as nat) && from <= i
                && i <= s@.len(),
            None => spec_find_from(s@, pat@, from as nat) is None,
        },
{
    let len = s.unicode_len();
    let plen = pat.unicode_len();
    if plen > len - from {
        proof {
            assert(spec_find_from(s@, pat@, from as nat) is None) by {
                lemma_find_none_when_short(s@, pat@, from as nat);
            }
        }
        return None;
    }
    if plen == 0 {
        proof {
            assert(s@.subrange(from as int, from as int) =~= pat@);
            assert(spec_find_from(s@, pat@, from as nat) == Some(from as nat));
        }
        return Some(from);
    }
    let mut i: usize = from;
    while i <= len - plen
        invariant
            len == s@.len(),
            plen == pat@.len(),
            0 < plen,
            from <= i <= len - plen + 1,
            plen <= len - from,
            spec_find_from(s@, pat@, from as nat) == spec_find_from(s@, pat@, i as nat),
        decreases len - i,
    {
        if match_at(s, pat, i) {
            proof {
                assert(spec_find_from(s@, pat@, i as nat) == Some(i as nat));
            }
            return Some(i);
        }
        proof {
            assert(spec_find_from(s@, pat@, i as nat) == spec_find_from(s@, pat@, (i + 1) as nat));
        }
        i = i + 1;
    }
    proof {
        assert(spec_find_from(s@, pat@, i as nat) is None);
    }
    None
}

proof fn lemma_find_none_when_short(s: Seq<char>, pat: Seq<char>, i: nat)
    requires
        i + pat.len() > s.len(),
    ensures
        spec_find_from(s, pat, i) is None,
{
}

/// The decoded bytes of a base64 text, as `base64::decode` with the
/// standard alphabet computes them; the result is a function of the text
/// alone, so it is given a name rather than a definition.
pub uninterp spec fn base64_decoded(s: Seq<char>) -> Option<Seq<u8>>;

/// Relies on `base64::decode`: decodes with the standard alphabet and
/// padding; fails exactly on malformed input.
#[verifier::external_body]
fn decode_base64(s: &str) -> (r: Option<Vec<u8>>)
    ensures
        match r {
            Some(v) => base64_decoded(s@) == Some(v@),
            None => base64_decoded(s@) is None,
        },
{
    base64::decode(s).ok()
}

/// The thumbnail embedded in role code as PNG bytes: the fragment between
/// the thumbnail markers, base64-decoded.  Missing fragment and malformed
/// base64 are distinguished, as callers report them differently.
pub fn thumbnail_png_data(code: &str) -> (r: Result<Vec<u8>, UserError>)
    ensures
        match r {
            Ok(bytes) => exists|f: Seq<char>|
                spec_thumbnail_fragment(code@) == Some(f) && base64_decoded(f) == Some(bytes@),
            Err(e) => (spec_thumbnail_fragment(code@) is None && e
                == UserError::ThumbnailNotFoundError) || (exists|f: Seq<char>|
                spec_thumbnail_fragment(code@) == Some(f) && base64_decoded(f) is None && e
                    == UserError::InternalError(InternalError::Base64DecodeError)),
        },
{
    match thumbnail_fragment(code) {
        None => Err(UserError::ThumbnailNotFoundError),
        Some(fragment) => match decode_base64(fragment.as_str()) {
            Some(bytes) => Ok(bytes),
            None => Err(UserError::InternalError(InternalError::Base64DecodeError)),
        },
    }
}

/// Assembles a materialized project from stored metadata and the role
/// contents fetched for it.
pub fn assemble_project(metadata: ProjectMetadata, roles: StrMap<RoleData>) -> (r: crate::types::Project)
    ensures
        r.id == metadata.id,
        r.owner == metadata.owner,
        r.name == metadata.name,
        r.updated == metadata.updated,
        r.state == metadata.state,
        r.collaborators == metadata.collaborators,
        r.origin_time == metadata.origin_time,
        r.save_state == metadata.save_state,
        r.roles == roles,
{
    crate::types::Project {
        id: metadata.id,
        owner: metadata.owner,
        name: metadata.name,
        updated: metadata.updated,
        state: metadata.state,
        collaborators: metadata.collaborators,
        origin_time: metadata.origin_time,
        save_state: metadata.save_state,
        roles,
    }
}

} // verus!
