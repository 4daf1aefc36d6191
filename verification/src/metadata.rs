//! What a flush tells the JavaScript reader before a run. The reader holds the
//! metadata block of one buffer and the last message pointer it read; a buffer
//! keeps the message pointer it last stored in its own metadata. The reader is
//! handed a buffer's metadata whenever it holds another, and the buffer raises
//! a flag when the reader must read the message pointer again.
use vstd::prelude::*;

verus! {

/// The decisions of one metadata update before a run.
pub struct MetadataUpdate {
    /// The metadata pointer handed to the reader's `create`, when the reader
    /// does not hold this buffer's metadata.
    pub create: Option<u32>,
    /// The message pointer stored in this buffer's metadata after the update.
    pub stored_msg_ptr: u32,
    /// Whether the reader must read the message pointer again.
    pub msg_moved: bool,
}

/// The metadata update before a run of the buffer whose metadata lies at
/// `metadata_ptr` and whose message lies at `msg_ptr`, when the reader holds
/// `reader_metadata` and the buffer last stored `stored_msg_ptr`.
pub open spec fn metadata_update(
    reader_metadata: Option<u32>,
    stored_msg_ptr: u32,
    msg_ptr: u32,
    metadata_ptr: u32,
) -> MetadataUpdate {
    let create = reader_metadata != Some(metadata_ptr);
    MetadataUpdate {
        create: if create { Some(metadata_ptr) } else { None },
        stored_msg_ptr: msg_ptr,
        msg_moved: create || stored_msg_ptr != msg_ptr,
    }
}

/// Decides the metadata update before a run. When the reader holds no
/// metadata or another buffer's, it is created with this buffer's metadata,
/// the message pointer is stored and the flag is raised. Otherwise the flag is
/// raised exactly when the message no longer lies where the stored pointer
/// says, and then the new pointer is stored.
pub fn update_metadata_ptrs(
    reader_metadata: Option<u32>,
    stored_msg_ptr: u32,
    msg_ptr: u32,
    metadata_ptr: u32,
) -> (update: MetadataUpdate)
    ensures
        update == metadata_update(reader_metadata, stored_msg_ptr, msg_ptr, metadata_ptr),
{
    let create = match reader_metadata {
        Some(held) => held != metadata_ptr,
        None => true,
    };
    if create {
        MetadataUpdate { create: Some(metadata_ptr), stored_msg_ptr: msg_ptr, msg_moved: true }
    } else {
        let msg_moved = stored_msg_ptr != msg_ptr;
        let stored = if msg_moved { msg_ptr } else { stored_msg_ptr };
        MetadataUpdate { create: None, stored_msg_ptr: stored, msg_moved }
    }
}

/// The metadata the reader holds after the update.
pub open spec fn reader_metadata_after(update: MetadataUpdate, reader_metadata: Option<u32>) -> Option<
    u32,
> {
    match update.create {
        Some(ptr) => Some(ptr),
        None => reader_metadata,
    }
}

/// Where the reader starts to read: the pointer in the metadata when the flag
/// is raised (`if(moved){ls=ptr;}`), else the pointer it kept from its last run.
pub open spec fn reader_start(update: MetadataUpdate, kept_ptr: u32) -> u32 {
    if update.msg_moved { update.stored_msg_ptr } else { kept_ptr }
}

/// Each buffer's run reads its own message: whatever buffer ran before, when
/// the reader's kept pointer is this buffer's stored pointer whenever it holds
/// this buffer's metadata (which every run leaves so), the reader starts at
/// this buffer's current message, then holds this buffer's metadata, and its
/// kept pointer is again the stored one. The reader is created exactly when it
/// holds other metadata, and the pointer is read again only when it must be.
pub proof fn lemma_reader_starts_at_message(
    reader_metadata: Option<u32>,
    kept_ptr: u32,
    stored_msg_ptr: u32,
    msg_ptr: u32,
    metadata_ptr: u32,
)
    requires
        reader_metadata == Some(metadata_ptr) ==> kept_ptr == stored_msg_ptr,
    ensures
        ({
            let u = metadata_update(reader_metadata, stored_msg_ptr, msg_ptr, metadata_ptr);
            &&& reader_start(u, kept_ptr) == msg_ptr
            &&& reader_metadata_after(u, reader_metadata) == Some(metadata_ptr)
            &&& reader_start(u, kept_ptr) == u.stored_msg_ptr
            &&& reader_metadata == Some(metadata_ptr) ==> u.create is None
            &&& reader_metadata != Some(metadata_ptr) ==> u.create == Some(metadata_ptr)
            &&& reader_metadata == Some(metadata_ptr) && stored_msg_ptr == msg_ptr ==> !u.msg_moved
        }),
{
}

/// Whether the reader must be given the memory again before a run: exactly
/// when the memory's size differs from the size it was last given at.
pub open spec fn memory_grew(last_mem_size: usize, mem_size: usize) -> bool {
    last_mem_size != mem_size
}

/// The memory is handed over again after any change of its size, by any
/// number of pages, and never while its size stays the same.
pub proof fn lemma_memory_given_on_every_change(last_mem_size: usize, mem_size: usize)
    ensures
        memory_grew(last_mem_size, mem_size) <==> last_mem_size != mem_size,
        memory_grew(last_mem_size, last_mem_size) == false,
        mem_size > last_mem_size ==> memory_grew(last_mem_size, mem_size),
{
}

/// Decides whether to hand the reader the grown memory before a run, and
/// the size to remember for the next run (the current one).
pub fn update_memory_size(last_mem_size: usize, mem_size: usize) -> (decision: (bool, usize))
    ensures
        decision.0 == memory_grew(last_mem_size, mem_size),
        decision.0 == (last_mem_size != mem_size),
        decision.1 == mem_size,
{
    if mem_size != last_mem_size {
        (true, mem_size)
    } else {
        (false, last_mem_size)
    }
}

} // verus!
