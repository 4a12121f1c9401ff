use vstd::prelude::*;

verus! {

/// Whether a file name names a source document: it must carry the `md`
/// extension, that is, end in `.md` with a nonempty stem before the dot (a
/// bare `.md` is a hidden file without an extension, not a document).
pub open spec fn is_md_name(name: Seq<char>) -> bool {
    name.len() >= 4 && name.subrange(name.len() - 3, name.len() as int) == ".md"@
}

/// The output file name for a source document name: the `md` extension is
/// replaced by `html`; everything before the dot stays as it is.
pub open spec fn html_name_of(name: Seq<char>) -> Seq<char> {
    name.subrange(0, name.len() - 3) + ".html"@
}

/// The output path for a source document's relative path, segment by segment:
/// the last segment gets its extension swapped, the rest stay verbatim.
pub open spec fn output_path_of(segments: Seq<Seq<char>>) -> Seq<Seq<char>> {
    segments.drop_last().push(html_name_of(segments.last()))
}

/// Checks whether a file name names a source document (see `is_md_name`).
pub fn is_markdown_name(name: &String) -> (b: bool)
    ensures
        b == is_md_name(name@),
{
    let n = name.as_str().unicode_len();
    if n < 4 {
        return false;
    }
    let suffix = name.as_str().substring_char(n - 3, n);
    let matches_md = suffix.to_owned() == ".md".to_owned();
    proof {
        if suffix@ == ".md"@ {
            assert(name@.subrange(name@.len() - 3, name@.len() as int) == ".md"@);
        }
    }
    matches_md
}

/// Maps a source document name to its output name: swaps the `md` extension
/// for `html` and keeps the stem.
pub fn html_output_name(name: &String) -> (r: String)
    requires
        is_md_name(name@),
    ensures
        r@ == html_name_of(name@),
{
    let n = name.as_str().unicode_len();
    let stem = name.as_str().substring_char(0, n - 3);
    let mut out = stem.to_owned();
    out.append(".html");
    out
}

/// Maps the relative path of a source document, given as its segments, to the
/// relative path of its output: the last segment's extension is swapped from
/// `md` to `html`, every other segment is kept verbatim.
pub fn output_rel_segments(segments: &Vec<String>) -> (r: Vec<String>)
    requires
        segments@.len() >= 1,
        is_md_name(segments@.last()@),
    ensures
        r@.len() == segments@.len(),
        forall|i: int| 0 <= i < r@.len() - 1 ==> #[trigger] r@[i]@ == segments@[i]@,
        r@.last()@ == html_name_of(segments@.last()@),
        r.deep_view() == output_path_of(segments.deep_view()),
{
    let mut r: Vec<String> = Vec::new();
    let last = segments.len() - 1;
    let mut i: usize = 0;
    while i < last
        invariant
            last == segments@.len() - 1,
            i <= last,
            r@.len() == i,
            forall|k: int| 0 <= k < i ==> #[trigger] r@[k]@ == segments@[k]@,
        decreases last - i,
    {
        r.push(segments[i].clone());
        i += 1;
    }
    r.push(html_output_name(&segments[last]));
    proof {
        assert(segments.deep_view().last() == segments@.last()@);
        assert(r.deep_view() =~= output_path_of(segments.deep_view()));
    }
    r
}

} // verus!
