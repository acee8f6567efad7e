//! The options of a file that is to be opened, step by step.

use vstd::prelude::*;

use crate::fs::{FileSystem, FsError, OpenOptionsConfig};
use crate::mount::MountFileSystem;
use crate::operations::opened_in;

verus! {

/// How a file is to be opened, and the filesystem to open it in.
pub struct OpenOptions<'a, F: FileSystem + ?Sized> {
    opener: &'a MountFileSystem<F>,
    conf: OpenOptionsConfig,
}

/// The options with which nothing is asked for.
pub open spec fn no_options() -> OpenOptionsConfig {
    OpenOptionsConfig {
        read: false,
        write: false,
        create_new: false,
        create: false,
        append: false,
        truncate: false,
    }
}

impl<'a, F: FileSystem + ?Sized> OpenOptions<'a, F> {
    /// The filesystem to open the file in.
    pub closed spec fn opener(&self) -> &MountFileSystem<F> {
        self.opener
    }

    /// The options so far.
    pub closed spec fn config(&self) -> OpenOptionsConfig {
        self.conf
    }

    /// No options yet.
    pub fn new(opener: &'a MountFileSystem<F>) -> (options: Self)
        ensures
            options.opener() == opener,
            options.config() == no_options(),
    {
        OpenOptions {
            opener,
            conf: OpenOptionsConfig {
                read: false,
                write: false,
                create_new: false,
                create: false,
                append: false,
                truncate: false,
            },
        }
    }

    /// Sets all options at once.
    pub fn options(&mut self, conf: OpenOptionsConfig) -> (options: &mut Self)
        ensures
            options.opener() == old(self).opener(),
            options.config() == conf,
            *final(self) == *final(options),
    {
        self.conf = conf;
        self
    }

    /// Sets whether the file is to be read.
    pub fn read(&mut self, read: bool) -> (options: &mut Self)
        ensures
            options.opener() == old(self).opener(),
            options.config() == (OpenOptionsConfig { read, ..old(self).config() }),
            *final(self) == *final(options),
    {
        self.conf.read = read;
        self
    }

    /// Sets whether the file is to be written.
    pub fn write(&mut self, write: bool) -> (options: &mut Self)
        ensures
            options.opener() == old(self).opener(),
            options.config() == (OpenOptionsConfig { write, ..old(self).config() }),
            *final(self) == *final(options),
    {
        self.conf.write = write;
        self
    }

    /// Sets whether the file is to be created, and must not exist yet.
    pub fn create_new(&mut self, create_new: bool) -> (options: &mut Self)
        ensures
            options.opener() == old(self).opener(),
            options.config() == (OpenOptionsConfig { create_new, ..old(self).config() }),
            *final(self) == *final(options),
    {
        self.conf.create_new = create_new;
        self
    }

    /// Opens the file at `path`.
    pub fn open(&self, path: &[u8]) -> (result: Result<F::File, FsError>)
        ensures
            opened_in(self.opener()@, path@, &self.config(), result),
    {
        self.opener.open(path, &self.conf)
    }
}

impl<F: FileSystem + ?Sized> MountFileSystem<F> {
    /// The options of a file that is to be opened here.
    pub fn new_open_options(&self) -> (options: OpenOptions<'_, F>)
        ensures
            options.opener() == self,
            options.config() == no_options(),
    {
        OpenOptions::new(self)
    }
}

} // verus!
