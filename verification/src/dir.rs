//! An in-memory description of a scratch directory: the path it stands at
//! and the files and links to lay out beneath it. The description is plain
//! data with exact contracts; the harness that owns the real filesystem
//! materialises it on disk.

use vstd::prelude::*;
use vstd::slice::slice_to_vec;
use vstd::string::StringSliceAdditionalSpecFns;

use crate::text::push_char;

verus! {

/// A file to lay out: its full path and its contents.
pub struct FileSpec {
    pub path: String,
    pub bytes: Vec<u8>,
}

/// The mathematical value of a [`FileSpec`].
pub struct FileSpecView {
    pub path: Seq<char>,
    pub bytes: Seq<u8>,
}

impl View for FileSpec {
    type V = FileSpecView;

    open spec fn view(&self) -> FileSpecView {
        FileSpecView { path: self.path@, bytes: self.bytes@ }
    }
}

/// A symbolic link to lay out: the path linked to and the link's own path.
pub struct LinkSpec {
    pub src: String,
    pub target: String,
}

/// The mathematical value of a [`LinkSpec`].
pub struct LinkSpecView {
    pub src: Seq<char>,
    pub target: Seq<char>,
}

impl View for LinkSpec {
    type V = LinkSpecView;

    open spec fn view(&self) -> LinkSpecView {
        LinkSpecView { src: self.src@, target: self.target@ }
    }
}

/// A directory path extended by one component.
pub open spec fn path_join(dir: Seq<char>, name: Seq<char>) -> Seq<char> {
    dir + seq!['/'] + name
}

/// A scratch directory under a fixed root path, described as the files and
/// links to lay out beneath it.
pub struct Dir {
    pub dir: String,
    pub files: Vec<FileSpec>,
    pub links: Vec<LinkSpec>,
}

/// The mathematical value of a [`Dir`].
pub struct DirView {
    pub dir: Seq<char>,
    pub files: Seq<FileSpecView>,
    pub links: Seq<LinkSpecView>,
}

impl View for Dir {
    type V = DirView;

    open spec fn view(&self) -> DirView {
        DirView {
            dir: self.dir@,
            files: self.files@.map_values(|f: FileSpec| f@),
            links: self.links@.map_values(|l: LinkSpec| l@),
        }
    }
}

/// `dir` extended by the component `name`.
fn join_path(dir: &String, name: &str) -> (r: String)
    ensures
        r@ == path_join(dir@, name@),
{
    let mut r = dir.clone();
    push_char(&mut r, '/');
    r.append(name);
    proof {
        assert(r@ =~= path_join(dir@, name@));
    }
    r
}

impl Dir {
    /// An empty description of the directory at `dir`.
    pub fn new(dir: String) -> (r: Dir)
        ensures
            r@.dir == dir@,
            r@.files == Seq::<FileSpecView>::empty(),
            r@.links == Seq::<LinkSpecView>::empty(),
    {
        let r = Dir { dir, files: Vec::new(), links: Vec::new() };
        proof {
            assert(r@.files =~= Seq::<FileSpecView>::empty());
            assert(r@.links =~= Seq::<LinkSpecView>::empty());
        }
        r
    }

    /// The directory's own path.
    pub fn path(&self) -> (r: &String)
        ensures
            r@ == self@.dir,
    {
        &self.dir
    }

    /// Records a file named `name` in this directory, holding the UTF-8
    /// bytes of `contents`.
    pub fn create(&mut self, name: &str, contents: &str)
        ensures
            final(self)@.files == old(self)@.files.push(
                FileSpecView {
                    path: path_join(old(self)@.dir, name@),
                    bytes: contents.spec_bytes(),
                },
            ),
            final(self)@.dir == old(self)@.dir,
            final(self)@.links == old(self)@.links,
    {
        self.create_bytes(name, contents.as_bytes());
    }

    /// Records a file exactly as [`Dir::create`] does; the result is kept for
    /// symmetry with fallible creation and is always success.
    pub fn try_create(&mut self, name: &str, contents: &str) -> (r: Result<(), ()>)
        ensures
            r is Ok,
            final(self)@.files == old(self)@.files.push(
                FileSpecView {
                    path: path_join(old(self)@.dir, name@),
                    bytes: contents.spec_bytes(),
                },
            ),
            final(self)@.dir == old(self)@.dir,
            final(self)@.links == old(self)@.links,
    {
        self.create_bytes(name, contents.as_bytes());
        Ok(())
    }

    /// Records a file named `name` in this directory, holding `contents`.
    pub fn create_bytes(&mut self, name: &str, contents: &[u8])
        ensures
            final(self)@.files == old(self)@.files.push(
                FileSpecView { path: path_join(old(self)@.dir, name@), bytes: contents@ },
            ),
            final(self)@.dir == old(self)@.dir,
            final(self)@.links == old(self)@.links,
    {
        let path = join_path(&self.dir, name);
        let bytes = slice_to_vec(contents);
        self.files.push(FileSpec { path, bytes });
        proof {
            assert(self@.files =~= old(self)@.files.push(
                FileSpecView { path: path_join(old(self)@.dir, name@), bytes: contents@ },
            ));
        }
    }

    /// Records a link named `target` in this directory, pointing at `src`,
    /// both taken relative to this directory.
    pub fn link_file(&mut self, src: &str, target: &str)
        ensures
            final(self)@.links == old(self)@.links.push(
                LinkSpecView {
                    src: path_join(old(self)@.dir, src@),
                    target: path_join(old(self)@.dir, target@),
                },
            ),
            final(self)@.dir == old(self)@.dir,
            final(self)@.files == old(self)@.files,
    {
        let s = join_path(&self.dir, src);
        let t = join_path(&self.dir, target);
        self.links.push(LinkSpec { src: s, target: t });
        proof {
            assert(self@.links =~= old(self)@.links.push(
                LinkSpecView {
                    src: path_join(old(self)@.dir, src@),
                    target: path_join(old(self)@.dir, target@),
                },
            ));
        }
    }
}

} // verus!
