//! Making an archive of whatever files were chosen.
use vstd::prelude::*;
use crate::archive::solid;
use crate::archive::solid::{SolidArchive, SolidError};
use crate::cm::control::Control;
use crate::codec;

verus! {

/// Why no archive was made.
#[derive(Clone, Copy, Debug, PartialEq, Eq, Structural)]
pub enum CreateError {
    /// There are no files.
    Nothing,
    /// The job was cancelled.
    Cancelled,
}

/// `v` is an archive of `files`: of the one file, or a solid one of many.
pub open spec fn created(files: Seq<solid::File>, level: u8, v: Seq<u8>) -> bool {
    if files.len() == 1 {
        codec::compressed(files[0].1, level, v)
    } else {
        solid::packed(files, level, v)
    }
}

/// Whatever files an archive was made of, they come out of it again: the one, or all of
/// them, with their names and in order.
pub proof fn created_archives_restore(files: Seq<solid::File>, level: u8, v: Seq<u8>)
    requires
        files.len() > 0,
        created(files, level, v),
        solid::fits(files),
        ({
            let d = solid::contents(files, files.len() as int);
            &&& codec::block_count(d.len() as int) <= u32::MAX
            &&& codec::raw_bytes(d, level).len() <= u32::MAX
            &&& d.len() <= usize::MAX
        }),
    ensures
        files.len() == 1 ==> codec::restored(v) == Ok::<Seq<u8>, codec::Error>(files[0].1),
        files.len() > 1 ==> solid::unpacked(v) == Ok::<Seq<solid::File>, SolidError>(files),
{
    if files.len() == 1 {
        assert(solid::contents(files, 0) =~= Seq::empty());
        assert(solid::contents(files, 1) =~= files[0].1);
        codec::archive_round_trip(files[0].1, level, v);
    } else {
        solid::solid_round_trip(files, level, v);
    }
}

/// Compress files into one archive, with a handle to watch and cancel the job. Only
/// cancelling can make it fail, unless there are no files.
pub fn create(files: &[(&str, &[u8])], level: u8, ctrl: &Control) -> (r: Result<
    Vec<u8>,
    CreateError,
>)
    ensures
        match r {
            Ok(v) => {
                let d = solid::contents(solid::files_of(files@), files@.len() as int);
                &&& files@.len() > 0
                &&& created(solid::files_of(files@), level, v@)
                &&& codec::written_under(d, level, Some(ctrl))
            },
            Err(CreateError::Nothing) => files@.len() == 0,
            Err(CreateError::Cancelled) => {
                let d = solid::contents(solid::files_of(files@), files@.len() as int);
                &&& files@.len() > 0
                &&& codec::mixed_bytes(d, level).len() > 0
                &&& ctrl.found(true)
            },
        },
{
    if files.len() == 0 {
        return Err(CreateError::Nothing);
    }
    if files.len() == 1 {
        proof {
            let fs = solid::files_of(files@);
            assert(solid::contents(fs, 0) =~= Seq::empty());
            assert(solid::contents(fs, 1) =~= fs[0].1);
        }
        match codec::compress_with_control(files[0].1, level, ctrl) {
            Ok(v) => Ok(v),
            Err(_) => Err(CreateError::Cancelled),
        }
    } else {
        match SolidArchive::pack_with_control(files, level, ctrl) {
            Ok(v) => Ok(v),
            Err(_) => Err(CreateError::Cancelled),
        }
    }
}

} // verus!
