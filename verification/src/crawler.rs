use vstd::prelude::*;

verus! {

/// One entry found by a scan: a file or a directory.
#[derive(Debug, Clone)]
pub struct FileInfo {
    pub path: String,
    pub name: String,
    pub size: u64,
    pub is_dir: bool,
    pub _mtime: u64,
}

/// The mathematical value of a [`FileInfo`].
pub struct FileInfoView {
    pub path: Seq<char>,
    pub name: Seq<char>,
    pub size: u64,
    pub is_dir: bool,
    pub mtime: u64,
}

impl View for FileInfo {
    type V = FileInfoView;

    open spec fn view(&self) -> FileInfoView {
        FileInfoView {
            path: self.path@,
            name: self.name@,
            size: self.size,
            is_dir: self.is_dir,
            mtime: self._mtime,
        }
    }
}

/// The entry that a scan records for what it read of one directory entry:
/// none where the modification time could not be read; otherwise the size
/// is the length for a regular file and 0 for anything else.
pub fn file_info(
    path: String,
    name: String,
    is_file: bool,
    is_dir: bool,
    len: u64,
    modified_secs: Option<u64>,
) -> (res: Option<FileInfo>)
    ensures
        match modified_secs {
            None => res is None,
            Some(t) => res matches Some(f) && f@ == (FileInfoView {
                path: path@,
                name: name@,
                size: if is_file { len } else { 0 },
                is_dir: is_dir,
                mtime: t,
            }),
        },
{
    match modified_secs {
        None => None,
        Some(t) => Some(
            FileInfo { path, name, size: if is_file { len } else { 0 }, is_dir, _mtime: t },
        ),
    }
}

/// The sum of the sizes of `files`.
pub open spec fn sizes_sum(files: Seq<FileInfoView>) -> nat
    decreases files.len(),
{
    if files.len() == 0 {
        0
    } else {
        sizes_sum(files.drop_last()) + files.last().size as nat
    }
}

} // verus!
