//! `write`: create or overwrite a file, creating its parent directories.

use vstd::prelude::*;
use vstd::utf8::*;
use crate::fs::{EffectClass, FileStat, ToolContract, ToolError, ToolFs, ToolFsError};
use crate::path::{normalize_tool_path, normalized_path, parent, parent_of};
use crate::text::{cat, decimal, decimal_string};
use crate::units::{utf16_len, utf16_units};

verus! {

/// Arguments of `write`.
#[derive(Clone, Debug)]
pub struct WriteArgs {
    /// Path of the file to write (relative to the workspace root or
    /// absolute within the granted scope).
    pub path: String,
    /// Full file content.
    pub content: String,
}

/// What `write` returns.
#[derive(Clone, Debug, PartialEq, Eq)]
pub struct WriteOutput {
    /// Model-facing text; it counts UTF-16 code units as "bytes".
    pub text: String,
    /// True UTF-8 byte count.
    pub bytes_written: u64,
    /// Whether the target existed just before the write.
    pub replaced: bool,
}

/// The model-facing contract of `write`.
pub fn contract() -> (r: ToolContract)
    ensures
        r.name@ == "write"@,
        r.effect_class == EffectClass::Idempotent,
        r.description@ == "Write content to a file. Creates the file if it doesn't exist, overwrites if it does. Automatically creates parent directories."@,
        r.input_schema@ == "{\"type\":\"object\",\"properties\":{\"path\":{\"type\":\"string\",\"description\":\"Path to the file to write (relative or absolute)\"},\"content\":{\"type\":\"string\",\"description\":\"Content to write to the file\"}},\"required\":[\"path\",\"content\"]}"@,
{
    ToolContract {
        name: "write",
        description: "Write content to a file. Creates the file if it doesn't exist, overwrites if it does. Automatically creates parent directories.",
        input_schema: "{\"type\":\"object\",\"properties\":{\"path\":{\"type\":\"string\",\"description\":\"Path to the file to write (relative or absolute)\"},\"content\":{\"type\":\"string\",\"description\":\"Content to write to the file\"}},\"required\":[\"path\",\"content\"]}",
        effect_class: EffectClass::Idempotent,
    }
}

/// The text reporting a write: the content's length in UTF-16 code units,
/// called bytes, and the path as given.
pub open spec fn write_text(content: Seq<char>, input_path: Seq<char>) -> Seq<char> {
    "Successfully wrote "@ + decimal(utf16_units(content)) + " bytes to "@ + input_path
}

/// The error text for a target that is neither a file nor a directory.
pub open spec fn not_a_file_text(path: Seq<char>) -> Seq<char> {
    "Path is not a file: "@ + path
}

/// Whether writing to `path` first creates its parent: it has one, and the
/// parent is not empty.
pub open spec fn needs_parent(path: Seq<char>) -> bool {
    parent_of(path) matches Some(dir) && dir.len() > 0
}

/// What a write learned from the backend: whether the target existed, its
/// stat, and, when they were asked for, the answers to creating the parent
/// directories and to writing the file.
pub struct WriteSeen {
    pub exists: Result<bool, ToolFsError>,
    pub stat: Result<FileStat, ToolFsError>,
    pub mkdir: Option<Result<(), ToolFsError>>,
    pub write: Option<Result<(), ToolFsError>>,
}

/// Whether `r` is what a write of `content` to `input_path` (through its
/// normalized form) returns, given what it learned: a target that exists and
/// is neither a file nor a directory is refused; otherwise a failure to
/// create the parent directories or to write is returned; a write that
/// succeeds reports the content's size and whether the target existed
/// before, an error asking counting as not.
pub open spec fn write_outcome(
    seen: WriteSeen,
    input_path: Seq<char>,
    content: Seq<char>,
    r: Result<WriteOutput, ToolError>,
) -> bool {
    let path = normalized_path(input_path);
    if seen.stat matches Ok(stat) && !stat.is_file && !stat.is_dir {
        r matches Err(ToolError::Failed(m)) && m@ == not_a_file_text(path)
    } else if needs_parent(path) && !(seen.mkdir matches Some(Ok(_))) {
        seen.mkdir matches Some(Err(e)) && r == Err::<WriteOutput, ToolError>(ToolError::Fs(e))
    } else {
        match seen.write {
            Some(Err(e)) => r == Err::<WriteOutput, ToolError>(ToolError::Fs(e)),
            Some(Ok(_)) => r matches Ok(out) && out.text@ == write_text(content, input_path)
                && out.bytes_written == encode_utf8(content).len() && out.replaced == (
            seen.exists == Ok::<bool, ToolFsError>(true)),
            None => false,
        }
    }
}

/// Whether every answer in `seen` is one `fs` gave to the call the write
/// makes: the existence check and the stat of the normalized path, the
/// creation of its parent with `recursive` set, and the write of the
/// content's UTF-8 bytes to that path.
pub open spec fn write_seen_from<F: ToolFs>(fs: &F, seen: WriteSeen, input_path: Seq<char>, content: Seq<char>) -> bool {
    let path = normalized_path(input_path);
    &&& fs.exists_answer(path, seen.exists)
    &&& fs.stat_answer(path, seen.stat)
    &&& seen.mkdir matches Some(made) ==> (parent_of(path) matches Some(dir) && fs.mkdir_answer(
        dir,
        true,
        made,
    ))
    &&& seen.write matches Some(written) ==> fs.write_answer(path, encode_utf8(content), written)
}

/// Writes `content` to the file at `path`, creating its parent directories;
/// an existing file is overwritten: what [`write_outcome`] says for the
/// backend's answers.
pub fn run<F: ToolFs>(args: WriteArgs, fs: &F) -> (r: Result<WriteOutput, ToolError>)
    ensures
        exists|seen: WriteSeen|
            #![trigger write_outcome(seen, args.path@, args.content@, r)]
            write_seen_from(fs, seen, args.path@, args.content@) && write_outcome(
                seen,
                args.path@,
                args.content@,
                r,
            ),
{
    let path = normalize_tool_path(args.path.as_str());
    let exists = fs.path_exists(path.as_str());
    let replaced = match exists {
        Ok(found) => found,
        Err(_) => false,
    };
    let stat = fs.stat(path.as_str());
    let special = match stat {
        Ok(stat) => !stat.is_file && !stat.is_dir,
        Err(_) => false,
    };
    let ghost mut seen = WriteSeen { exists, stat, mkdir: None, write: None };
    if special {
        let r = Err(ToolError::Failed(cat("Path is not a file: ", path.as_str())));
        proof {
            assert(write_seen_from(fs, seen, args.path@, args.content@) && write_outcome(seen, args.path@, args.content@, r));
        }
        return r;
    }
    match parent(path.as_str()) {
        Some(dir) => {
            if dir.as_str().unicode_len() > 0 {
                let made = fs.mkdir(dir.as_str(), true);
                proof {
                    seen.mkdir = Some(made);
                }
                match made {
                    Ok(()) => {},
                    Err(error) => {
                        let r = Err(ToolError::Fs(error));
                        proof {
                            assert(write_seen_from(fs, seen, args.path@, args.content@) && write_outcome(seen, args.path@, args.content@, r));
                        }
                        return r;
                    },
                }
            }
        },
        None => {},
    }
    let content = args.content.as_str().as_bytes();
    let written = fs.write_file(path.as_str(), content);
    proof {
        seen.write = Some(written);
    }
    match written {
        Ok(()) => {},
        Err(error) => {
            let r = Err(ToolError::Fs(error));
            proof {
                assert(write_seen_from(fs, seen, args.path@, args.content@) && write_outcome(seen, args.path@, args.content@, r));
            }
            return r;
        },
    }
    let units = utf16_len(args.content.as_str());
    let a = cat("Successfully wrote ", decimal_string(units as u128).as_str());
    let b = cat(a.as_str(), " bytes to ");
    let text = cat(b.as_str(), args.path.as_str());
    let r = Ok(WriteOutput { text, bytes_written: content.len() as u64, replaced });
    proof {
        assert(write_seen_from(fs, seen, args.path@, args.content@) && write_outcome(seen, args.path@, args.content@, r));
    }
    r
}

} // verus!
