use vstd::prelude::*;
use vstd::string::StringSliceAdditionalSpecFns;

use crate::cluster::ClusterView;
use crate::disk::{
    decode_disk, disk_to_clusters, file_names, lemma_decoded_disk_wf, list_files, render_bytes,
    render_disk, strings_view,
};
use crate::error::DiskError;
use crate::strings::{push_chars, text_of};

verus! {

/// The shell's command line: an input file (empty for standard input), a
/// request for the file listing, and the name of a file to print (empty for
/// none).
#[derive(Debug, Clone)]
pub struct Args {
    pub input_file: String,
    pub dir: bool,
    pub type_: String,
}

/// A command for the shell to perform.
#[derive(Debug, Clone)]
pub enum ShellAction {
    /// Print the whole disk as a hex dump.
    Disk,
    /// Print the named file.
    Type(String),
    /// Print the names of the files.
    Dir,
}

pub enum ShellActionView {
    Disk,
    Type(Seq<char>),
    Dir,
}

impl View for ShellAction {
    type V = ShellActionView;

    open spec fn view(&self) -> ShellActionView {
        match self {
            ShellAction::Disk => ShellActionView::Disk,
            ShellAction::Type(name) => ShellActionView::Type(name@),
            ShellAction::Dir => ShellActionView::Dir,
        }
    }
}

/// A configuration for the shell: where the disk text comes from (`None` for
/// standard input) and what to do with it.
#[derive(Debug, Clone)]
pub struct Config {
    pub input_path: Option<String>,
    pub action: ShellAction,
}

/// The action that the command line asks for: the listing first, then the
/// file to print, else the whole disk.
pub open spec fn action_of(dir: bool, type_: Seq<char>) -> ShellActionView {
    if dir {
        ShellActionView::Dir
    } else if type_.len() > 0 {
        ShellActionView::Type(type_)
    } else {
        ShellActionView::Disk
    }
}

impl Config {
    pub fn build(args: Args) -> (r: Config)
        ensures
            match r.input_path {
                None => args.input_file@.len() == 0,
                Some(p) => args.input_file@.len() > 0 && p@ == args.input_file@,
            },
            r.action@ == action_of(args.dir, args.type_@),
    {
        let input_path = if args.input_file.as_str().is_empty() {
            None
        } else {
            Some(args.input_file)
        };
        let action = if args.dir {
            ShellAction::Dir
        } else if !args.type_.as_str().is_empty() {
            ShellAction::Type(args.type_)
        } else {
            ShellAction::Disk
        };
        Config { input_path, action }
    }
}

/// The names, each followed by a newline.
pub open spec fn lines_text(names: Seq<Seq<char>>) -> Seq<char>
    decreases names.len(),
{
    if names.len() == 0 {
        Seq::empty()
    } else {
        lines_text(names.drop_last()) + names.last() + seq!['\n']
    }
}

/// What the shell prints for an action on a disk.
pub open spec fn response(action: ShellActionView, cs: Seq<ClusterView>) -> Seq<char> {
    match action {
        ShellActionView::Disk => text_of(render_bytes(cs)),
        ShellActionView::Type(name) => "type: "@ + name + seq!['\n'],
        ShellActionView::Dir => lines_text(file_names(cs)),
    }
}

fn join_lines(names: &Vec<String>) -> (r: String)
    ensures
        r@ == lines_text(strings_view(names@)),
{
    let mut out = String::new();
    let mut i: usize = 0;
    while i < names.len()
        invariant
            i <= names@.len(),
            out@ == lines_text(strings_view(names@.subrange(0, i as int))),
        decreases names@.len() - i,
    {
        let ghost before = out@;
        push_chars(&mut out, &names[i], 0);
        out.push('\n');
        proof {
            let sv = strings_view(names@.subrange(0, i + 1));
            assert(sv.drop_last() =~= strings_view(names@.subrange(0, i as int)));
            assert(names@[i as int]@.subrange(0, names@[i as int]@.len() as int) =~= names@[i as int]@);
            assert(out@ =~= lines_text(sv));
        }
        i = i + 1;
    }
    assert(names@.subrange(0, i as int) =~= names@);
    out
}

/// Decodes a disk text and performs an action on it; returns the text to
/// print, or the error that stopped the decoding.
pub fn execute(action: &ShellAction, disk: &str) -> (r: Result<String, DiskError>)
    ensures
        match decode_disk(disk.spec_bytes()) {
            Ok(cs) => r is Ok && r->Ok_0@ == response(action@, cs),
            Err(e) => r == Err::<String, DiskError>(e),
        },
{
    let clusters = match disk_to_clusters(disk) {
        Ok(cs) => cs,
        Err(e) => return Err(e),
    };
    match action {
        ShellAction::Disk => {
            proof {
                lemma_decoded_disk_wf(disk.spec_bytes());
            }
            Ok(render_disk(clusters.as_slice()))
        },
        ShellAction::Type(name) => {
            let mut out = String::from_str("type: ");
            push_chars(&mut out, name, 0);
            out.push('\n');
            assert(name@.subrange(0, name@.len() as int) =~= name@);
            Ok(out)
        },
        ShellAction::Dir => {
            let names = list_files(clusters.as_slice());
            Ok(join_lines(&names))
        },
    }
}

} // verus!
