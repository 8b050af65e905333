//! The decision core of the CRUD operations. Persistence itself is an
//! external collaborator: the surrounding application performs the store
//! calls and hands their plain results back; the functions here make every
//! decision — id assignment, validation gates, which store call an
//! operation needs next — and state them exactly.

use vstd::prelude::*;
use crate::errors::CoreError;

verus! {

/// The class of a finished persistence mutation, as the cache layer needs
/// to know it.
#[derive(Clone, Copy, PartialEq, Eq, Structural, Debug)]
pub enum MutationKind {
    /// A new entity was inserted.
    Create,
    /// An existing entity was rewritten.
    Update,
    /// An entity was removed.
    Delete,
}

/// The store call a save needs: insert when the entity is new, update
/// when it already exists.
#[derive(Clone, Copy, PartialEq, Eq, Structural, Debug)]
pub enum SaveAction {
    Insert,
    Update,
}

/// Relies on `uuid::Uuid::new_v4` for a random entity id: the generated
/// value always carries the version-4 marker bits, so it is never zero.
#[verifier::external_body]
fn fresh_id_raw() -> (r: u128)
    ensures
        r != 0,
{
    uuid::Uuid::new_v4().as_u128()
}

/// The id a new entity gets: its own when it brought one, a freshly
/// generated non-zero id when it came with the nil id.
pub fn assign_id(entity_id: u128) -> (r: u128)
    ensures
        entity_id != 0 ==> r == entity_id,
        r != 0,
{
    if entity_id == 0 {
        fresh_id_raw()
    } else {
        entity_id
    }
}

/// Whether a create may proceed, and under which id. An entity that
/// failed validation is refused before any store call; otherwise the
/// entity keeps its id, or receives a fresh one in place of the nil id.
pub fn prepare_create(entity_id: u128, valid: bool) -> (r: Result<u128, CoreError>)
    ensures
        valid <==> r is Ok,
        r is Ok ==> r->Ok_0 != 0 && (entity_id != 0 ==> r->Ok_0 == entity_id),
        r is Err ==> r->Err_0 == CoreError::ValidationError,
{
    if !valid {
        return Err(CoreError::ValidationError);
    }
    Ok(assign_id(entity_id))
}

/// Whether an update may proceed: the entity must have been found, and
/// the updated state must be valid. Absence is reported as `NotFound`
/// before validation is even consulted.
pub fn prepare_update(found: bool, valid: bool) -> (r: Result<(), CoreError>)
    ensures
        r is Ok <==> found && valid,
        !found ==> r == Err::<(), CoreError>(CoreError::NotFound),
        found && !valid ==> r == Err::<(), CoreError>(CoreError::ValidationError),
{
    if !found {
        Err(CoreError::NotFound)
    } else if !valid {
        Err(CoreError::ValidationError)
    } else {
        Ok(())
    }
}

/// Whether an entity with this id exists, given what the store returned
/// for it.
pub fn exists_from_lookup(found_in_store: bool) -> (r: bool)
    ensures
        r == found_in_store,
{
    found_in_store
}

/// The store call a save needs: insert for a nil id or an unknown
/// entity, update for a known one.
pub fn plan_save(entity_id: u128, exists: bool) -> (r: SaveAction)
    ensures
        r == (if entity_id == 0 || !exists {
            SaveAction::Insert
        } else {
            SaveAction::Update
        }),
{
    if entity_id == 0 || !exists {
        SaveAction::Insert
    } else {
        SaveAction::Update
    }
}

/// The operation an upsert performs: update when the entity exists,
/// create otherwise.
pub fn plan_upsert(exists: bool) -> (r: MutationKind)
    ensures
        r == (if exists {
            MutationKind::Update
        } else {
            MutationKind::Create
        }),
{
    if exists {
        MutationKind::Update
    } else {
        MutationKind::Create
    }
}

} // verus!
