use vstd::prelude::*;

use crate::errors::BuildError;
use crate::page::Page;
use crate::page::render_of;
use crate::paths::is_md_name;
use crate::paths::is_markdown_name;
use crate::paths::output_path_of;
use crate::paths::output_rel_segments;

verus! {

/// One filesystem entry found under the input root: its path relative to that
/// root, split into segments, whether it is a directory, and, for a regular
/// file, its text.
pub struct InputEntry {
    pub segments: Vec<String>,
    pub is_dir: bool,
    pub content: String,
}

/// One output the build produces: the path of the rendered file relative to
/// the output root, split into segments, and the markup to write there.
#[derive(Debug, PartialEq, Eq)]
pub struct OutputFile {
    pub segments: Vec<String>,
    pub html: String,
}

/// An entry produces output only if it is a regular file whose name carries
/// the source extension.
pub open spec fn eligible_spec(segments: Seq<Seq<char>>, is_dir: bool) -> bool {
    !is_dir && segments.len() >= 1 && is_md_name(segments.last())
}

impl InputEntry {
    /// Whether this entry produces output.
    pub open spec fn eligible(self) -> bool {
        eligible_spec(self.segments.deep_view(), self.is_dir)
    }
}

/// The outputs a list of entries leads to, in the order the entries come:
/// one per eligible entry, at the mirrored path with the swapped extension,
/// holding the markup rendered from the entry's text.
pub open spec fn planned_outputs(entries: Seq<InputEntry>) -> Seq<(Seq<Seq<char>>, Seq<char>)>
    decreases entries.len(),
{
    if entries.len() == 0 {
        Seq::<(Seq<Seq<char>>, Seq<char>)>::empty()
    } else {
        let rest = planned_outputs(entries.drop_last());
        let e = entries.last();
        if e.eligible() {
            rest.push((output_path_of(e.segments.deep_view()), render_of(e.content@)))
        } else {
            rest
        }
    }
}

/// The paths and contents of a list of produced outputs.
pub open spec fn outputs_view(outs: Seq<OutputFile>) -> Seq<(Seq<Seq<char>>, Seq<char>)> {
    Seq::new(outs.len(), |i: int| (outs[i].segments.deep_view(), outs[i].html@))
}

/// The build's pre-flight check: it refuses to run when the designated output
/// root already exists, before anything is read or written.
pub fn check_output_root(output_root_exists: bool) -> (r: Result<(), BuildError>)
    ensures
        r is Ok <==> !output_root_exists,
        output_root_exists ==> r == Err::<(), BuildError>(BuildError::PreexistingOutput),
{
    if output_root_exists {
        Err(BuildError::PreexistingOutput)
    } else {
        Ok(())
    }
}

/// Decides whether an entry produces output (see `eligible_spec`).
pub fn entry_is_eligible(segments: &Vec<String>, is_dir: bool) -> (b: bool)
    ensures
        b == eligible_spec(segments.deep_view(), is_dir),
{
    if is_dir || segments.len() == 0 {
        return false;
    }
    let b = is_markdown_name(&segments[segments.len() - 1]);
    proof {
        assert(segments.deep_view().last() == segments@.last()@);
    }
    b
}

/// Plans one whole build: refuses a preexisting output root, and otherwise
/// turns the entries found under the input root into the outputs to write,
/// one per eligible entry, in order: the mirrored relative path with the
/// extension swapped, and the markup rendered from the entry's text.
pub fn plan_build(output_root_exists: bool, entries: &Vec<InputEntry>) -> (r: Result<
    Vec<OutputFile>,
    BuildError,
>)
    ensures
        output_root_exists ==> r == Err::<Vec<OutputFile>, BuildError>(
            BuildError::PreexistingOutput,
        ),
        !output_root_exists ==> r is Ok && outputs_view(r->Ok_0@) == planned_outputs(entries@),
{
    if output_root_exists {
        return Err(BuildError::PreexistingOutput);
    }
    let mut outs: Vec<OutputFile> = Vec::new();
    proof {
        assert(outputs_view(outs@) =~= planned_outputs(entries@.take(0)));
    }
    let mut i: usize = 0;
    while i < entries.len()
        invariant
            i <= entries@.len(),
            outputs_view(outs@) == planned_outputs(entries@.take(i as int)),
        decreases entries@.len() - i,
    {
        let e = &entries[i];
        if entry_is_eligible(&e.segments, e.is_dir) {
            let page = Page::new(e.content.as_str());
            let html = page.get_html().to_owned();
            let segments = output_rel_segments(&e.segments);
            outs.push(OutputFile { segments, html });
        }
        proof {
            assert(entries@.take(i + 1).drop_last() =~= entries@.take(i as int));
            assert(entries@.take(i + 1).last() == entries@[i as int]);
            assert(outputs_view(outs@) =~= planned_outputs(entries@.take(i + 1)));
        }
        i += 1;
    }
    proof {
        assert(entries@.take(entries@.len() as int) =~= entries@);
    }
    Ok(outs)
}

} // verus!
