//! An opened schema file: where it came from, its text, and its descriptor.
use vstd::prelude::*;


use crate::types::FileDescriptorProto;
use crate::MAX_FILE_LEN;

verus! {

/// A source text longer than the largest file accepted.
#[derive(Debug, Clone, Copy, PartialEq, Eq, Structural)]
pub struct FileTooLarge {
    pub len: usize,
}

#[derive(Debug)]
pub struct File {
    path: Option<String>,
    source: Option<String>,
    descriptor: FileDescriptorProto,
}

impl File {
    /// A file known only by its descriptor, with neither path nor text.
    pub fn from_file_descriptor_proto(descriptor: FileDescriptorProto) -> (r: File)
        ensures
            r.path_spec() is None,
            r.source_spec() is None,
            r.descriptor_spec() == descriptor,
    {
        File { path: None, source: None, descriptor }
    }

    /// A file read from `path` (if any) with its text and the descriptor
    /// parsed from it; a text longer than the largest file is refused.
    pub fn from_source(path: Option<String>, source: &str, descriptor: FileDescriptorProto) -> (r: Result<
        File,
        FileTooLarge,
    >)
        ensures
            match r {
                Ok(f) => source.len() <= MAX_FILE_LEN && f.path_spec() == path
                    && f.descriptor_spec() == descriptor && (f.source_spec() matches Some(s) && s@ == source@),
                Err(e) => source.len() > MAX_FILE_LEN && e.len
                    == source.len(),
            },
    {
        let len = source.len();
        if len as u64 > MAX_FILE_LEN {
            Err(FileTooLarge { len })
        } else {
            Ok(File { path, source: Some(String::from_str(source)), descriptor })
        }
    }

    pub closed spec fn path_spec(&self) -> Option<String> {
        self.path
    }

    pub closed spec fn source_spec(&self) -> Option<String> {
        self.source
    }

    pub closed spec fn descriptor_spec(&self) -> FileDescriptorProto {
        self.descriptor
    }

    /// The path the file was read from, if it was read from one.
    pub fn path(&self) -> (r: Option<&String>)
        ensures
            match r {
                Some(p) => self.path_spec() == Some(*p),
                None => self.path_spec() is None,
            },
    {
        match &self.path {
            Some(p) => Some(p),
            None => None,
        }
    }

    /// The full text of the file, if it is known.
    pub fn source(&self) -> (r: Option<&String>)
        ensures
            match r {
                Some(s) => self.source_spec() == Some(*s),
                None => self.source_spec() is None,
            },
    {
        match &self.source {
            Some(s) => Some(s),
            None => None,
        }
    }

    /// The descriptor of the file.
    pub fn to_file_descriptor_proto(&self) -> (r: &FileDescriptorProto)
        ensures
            *r == self.descriptor_spec(),
    {
        &self.descriptor
    }
}

} // verus!
