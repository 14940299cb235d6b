//! Which source form a file is written in.

use crate::lexer::unicode::chars_vec;
use vstd::prelude::*;
use vstd::string::*;

verus! {

/// The two source forms.
#[derive(Debug, Clone, Copy, PartialEq, Eq, Structural)]
pub enum SourceForm {
    FreeForm,
    FixedForm,
}

/// Does `s` end with `suffix`?
pub open spec fn ends_with(s: Seq<char>, suffix: Seq<char>) -> bool {
    s.len() >= suffix.len() && s.skip(s.len() - suffix.len()) == suffix
}

fn has_suffix(s: &Vec<char>, suffix: &str) -> (r: bool)
    ensures
        r == ends_with(s@, suffix@),
{
    let tail = chars_vec(suffix);
    if s.len() < tail.len() {
        return false;
    }
    let from: usize = s.len() - tail.len();
    let mut i: usize = 0;
    while i < tail.len()
        invariant
            i <= tail@.len(),
            from + tail@.len() == s@.len() <= usize::MAX,
            tail@ == suffix@,
            forall|k: int| 0 <= k < i ==> s@[from + k] == #[trigger] tail@[k],
        decreases tail@.len() - i,
    {
        if s[from + i] != tail[i] {
            proof {
                assert(s@.skip(from as int)[i as int] != suffix@[i as int]);
            }
            return false;
        }
        i = i + 1;
    }
    proof {
        assert(s@.skip(from as int) =~= suffix@);
    }
    true
}

/// Is a path that of a fixed-form file?
pub open spec fn fixed_form_path(path: Seq<char>) -> bool {
    ends_with(path, ".f"@) || ends_with(path, ".for"@) || ends_with(path, ".ftn"@)
}

/// The source form that a path's extension stands for: fixed for `.f`, `.for`
/// and `.ftn`, free for every other.
pub fn detect_source_form(path: &str) -> (r: SourceForm)
    ensures
        r == if fixed_form_path(path@) {
            SourceForm::FixedForm
        } else {
            SourceForm::FreeForm
        },
{
    let all = chars_vec(path);
    if has_suffix(&all, ".f") || has_suffix(&all, ".for") || has_suffix(&all, ".ftn") {
        SourceForm::FixedForm
    } else {
        SourceForm::FreeForm
    }
}

/// The extension of a path tells the form, whatever stands before it.
pub proof fn extensions_tell_the_form(stem: Seq<char>)
    ensures
        fixed_form_path(stem + ".f"@),
        fixed_form_path(stem + ".for"@),
        fixed_form_path(stem + ".ftn"@),
        !fixed_form_path(stem + ".f90"@),
        !fixed_form_path(stem + ".f95"@),
        !fixed_form_path(stem + ".f03"@),
        !fixed_form_path(stem + ".f08"@),
        !fixed_form_path(stem + ".F90"@),
{
    reveal_strlit(".f");
    reveal_strlit(".for");
    reveal_strlit(".ftn");
    reveal_strlit(".f90");
    reveal_strlit(".f95");
    reveal_strlit(".f03");
    reveal_strlit(".f08");
    reveal_strlit(".F90");
    lemma_suffix(stem, ".f"@);
    lemma_suffix(stem, ".for"@);
    lemma_suffix(stem, ".ftn"@);
    lemma_other_suffix(stem, ".f90"@, '0');
    lemma_other_suffix(stem, ".f95"@, '5');
    lemma_other_suffix(stem, ".f03"@, '3');
    lemma_other_suffix(stem, ".f08"@, '8');
    lemma_other_suffix(stem, ".F90"@, '0');
}

proof fn lemma_suffix(stem: Seq<char>, t: Seq<char>)
    ensures
        ends_with(stem + t, t),
{
    let s = stem + t;
    assert(s.skip(s.len() - t.len()) =~= t);
}

proof fn lemma_other_suffix(stem: Seq<char>, t: Seq<char>, last: char)
    requires
        t.len() > 0,
        t.last() == last,
        last != 'f',
        last != 'r',
        last != 'n',
    ensures
        !fixed_form_path(stem + t),
{
    reveal_strlit(".f");
    reveal_strlit(".for");
    reveal_strlit(".ftn");
    let s = stem + t;
    assert(s.last() == last);
    if ends_with(s, ".f"@) {
        assert(s.skip(s.len() - 2)[1] == s.last());
    }
    if ends_with(s, ".for"@) {
        assert(s.skip(s.len() - 4)[3] == s.last());
    }
    if ends_with(s, ".ftn"@) {
        assert(s.skip(s.len() - 4)[3] == s.last());
    }
}

} // verus!
