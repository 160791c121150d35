//! The settings of one run of the machine: where its output goes and what it is
//! started with.
use std::path::PathBuf;
use vstd::prelude::*;

verus! {

#[verifier::external_type_specification]
#[verifier::external_body]
pub struct ExPathBuf(PathBuf);

/// One run of the machine: its arguments, which backend runs it, and where the
/// frames and the audio it makes are written.
pub struct VMWrapper<'t> {
    native: bool,
    args: &'t Vec<String>,
    screen_dir: PathBuf,
    audio_file: PathBuf,
}

impl<'t> VMWrapper<'t> {
    pub fn new(screen_dir: PathBuf, audio_file: PathBuf, args: &'t Vec<String>, native: bool) -> (r: Self)
        ensures
            r.spec_native() == native,
            r.spec_args() == args,
            r.spec_screen_dir() == screen_dir,
            r.spec_audio_file() == audio_file,
    {
        Self { screen_dir, audio_file, args, native }
    }

    pub closed spec fn spec_native(&self) -> bool {
        self.native
    }

    pub closed spec fn spec_args(&self) -> &'t Vec<String> {
        self.args
    }

    pub closed spec fn spec_screen_dir(&self) -> PathBuf {
        self.screen_dir
    }

    pub closed spec fn spec_audio_file(&self) -> PathBuf {
        self.audio_file
    }

    /// Whether the accelerated backend was asked for.
    pub fn native(&self) -> (r: bool)
        ensures
            r == self.spec_native(),
    {
        self.native
    }

    /// The arguments handed to the machine before the grid is replayed.
    pub fn args(&self) -> (r: &'t Vec<String>)
        ensures
            r == self.spec_args(),
    {
        self.args
    }

    /// The directory that receives one raw image per frame.
    pub fn screen_dir(&self) -> (r: &PathBuf)
        ensures
            *r == self.spec_screen_dir(),
    {
        &self.screen_dir
    }

    /// The file that receives the mixed audio.
    pub fn audio_file(&self) -> (r: &PathBuf)
        ensures
            *r == self.spec_audio_file(),
    {
        &self.audio_file
    }
}

} // verus!
