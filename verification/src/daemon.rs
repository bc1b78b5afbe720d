//! What the daemon takes from a parsed query: the sort to apply, and the words to mark in the
//! file names it reports.
use crate::matcher::{is_alphanumeric, unicode_alphanumeric};
use crate::query::{lemma_terms_model_len, term_model, terms_model, Sort, TermModel, TextTerm};
use crate::sort::SortKey;
use crate::ipc::strings_view;
use vstd::prelude::*;

verus! {

/// The sort key and direction of a query's sort.
pub open spec fn sort_params_spec(sort: Sort) -> (SortKey, bool) {
    match sort {
        Sort::NameAsc => (SortKey::Name, true),
        Sort::NameDesc => (SortKey::Name, false),
        Sort::PathAsc => (SortKey::Path, true),
        Sort::PathDesc => (SortKey::Path, false),
        Sort::SizeAsc => (SortKey::Size, true),
        Sort::SizeDesc => (SortKey::Size, false),
        Sort::ModifiedAsc => (SortKey::Modified, true),
        Sort::ModifiedDesc => (SortKey::Modified, false),
        Sort::CreatedAsc => (SortKey::Created, true),
        Sort::CreatedDesc => (SortKey::Created, false),
        Sort::AccessedAsc => (SortKey::Accessed, true),
        Sort::AccessedDesc => (SortKey::Accessed, false),
        Sort::ExtensionAsc => (SortKey::Extension, true),
        Sort::ExtensionDesc => (SortKey::Extension, false),
    }
}

pub fn sort_params(sort: Sort) -> (r: (SortKey, bool))
    ensures
        r == sort_params_spec(sort),
{
    match sort {
        Sort::NameAsc => (SortKey::Name, true),
        Sort::NameDesc => (SortKey::Name, false),
        Sort::PathAsc => (SortKey::Path, true),
        Sort::PathDesc => (SortKey::Path, false),
        Sort::SizeAsc => (SortKey::Size, true),
        Sort::SizeDesc => (SortKey::Size, false),
        Sort::ModifiedAsc => (SortKey::Modified, true),
        Sort::ModifiedDesc => (SortKey::Modified, false),
        Sort::CreatedAsc => (SortKey::Created, true),
        Sort::CreatedDesc => (SortKey::Created, false),
        Sort::AccessedAsc => (SortKey::Accessed, true),
        Sort::AccessedDesc => (SortKey::Accessed, false),
        Sort::ExtensionAsc => (SortKey::Extension, true),
        Sort::ExtensionDesc => (SortKey::Extension, false),
    }
}

/// The characters of `s` other than `*` and `?`.
pub open spec fn without_wildcards(s: Seq<char>) -> Seq<char>
    decreases s.len(),
{
    if s.len() == 0 {
        s
    } else {
        without_wildcards(s.drop_last()) + if s.last() == '*' || s.last() == '?' {
            Seq::empty()
        } else {
            seq![s.last()]
        }
    }
}

/// The letters and digits of `s`.
pub open spec fn alphanumerics(s: Seq<char>) -> Seq<char>
    decreases s.len(),
{
    if s.len() == 0 {
        s
    } else {
        alphanumerics(s.drop_last()) + if unicode_alphanumeric(s.last()) {
            seq![s.last()]
        } else {
            Seq::empty()
        }
    }
}

pub open spec fn one_if_any(s: Seq<char>) -> Seq<Seq<char>> {
    if s.len() == 0 {
        Seq::empty()
    } else {
        seq![s]
    }
}

/// The words that a term asks to find in names: a substring as it is, a wildcard pattern
/// without its wildcards, the letters and digits of a regular expression, nothing for a negated
/// term, and the words of each alternative.
pub open spec fn needles(t: TermModel) -> Seq<Seq<char>>
    decreases t,
{
    match t {
        TermModel::Substring(s) => seq![s],
        TermModel::Wildcard(p) => one_if_any(without_wildcards(p)),
        TermModel::Regex(p) => one_if_any(alphanumerics(p)),
        TermModel::Not(_) => Seq::empty(),
        TermModel::Or(items) => needles_of(items),
    }
}

pub open spec fn needles_of(v: Seq<TermModel>) -> Seq<Seq<char>>
    decreases v,
{
    if v.len() == 0 {
        Seq::empty()
    } else {
        needles_of(v.drop_last()) + needles(v.last())
    }
}

fn filtered(s: &str, keep_alnum: bool) -> (r: String)
    ensures
        keep_alnum ==> r@ == alphanumerics(s@),
        !keep_alnum ==> r@ == without_wildcards(s@),
{
    let c = crate::text::chars_of(s);
    let mut out = String::new();
    let mut i: usize = 0;
    while i < c.len()
        invariant
            i <= c@.len(),
            c@ == s@,
            keep_alnum ==> out@ == alphanumerics(c@.take(i as int)),
            !keep_alnum ==> out@ == without_wildcards(c@.take(i as int)),
        decreases c.len() - i,
    {
        assert(c@.take(i + 1).drop_last() =~= c@.take(i as int));
        let ch = c[i];
        let keep = if keep_alnum {
            is_alphanumeric(ch)
        } else {
            ch != '*' && ch != '?'
        };
        let ghost before = out@;
        if keep {
            crate::text::push_char(&mut out, ch);
        }
        assert(out@ =~= before + if keep {
            seq![ch]
        } else {
            Seq::<char>::empty()
        });
        i += 1;
    }
    assert(c@.take(c@.len() as int) =~= c@);
    out
}

pub fn term_needles(term: &TextTerm) -> (r: Vec<String>)
    ensures
        strings_view(r@) == needles(term_model(*term)),
    decreases term,
{
    match term {
        TextTerm::Substring(s) => {
            let r = vec![s.clone()];
            assert(strings_view(r@) =~= seq![s@]);
            r
        },
        TextTerm::Wildcard(p) | TextTerm::Regex(p) => {
            let alnum = matches!(term, TextTerm::Regex(_));
            let c = filtered(p.as_str(), alnum);
            let mut r: Vec<String> = Vec::new();
            if c.as_str().unicode_len() > 0 {
                r.push(c);
            }
            assert(strings_view(r@) =~= needles(term_model(*term)));
            r
        },
        TextTerm::Not(_) => {
            let r: Vec<String> = Vec::new();
            assert(strings_view(r@) =~= Seq::<Seq<char>>::empty());
            r
        },
        TextTerm::Or(items) => {
            let ghost ts = terms_model(items@);
            proof {
                lemma_terms_model_len(items@);
            }
            let mut out: Vec<String> = Vec::new();
            let mut i: usize = 0;
            assert(ts.take(0) =~= Seq::<TermModel>::empty());
            assert(strings_view(out@) =~= Seq::<Seq<char>>::empty());
            while i < items.len()
                invariant
                    i <= items@.len() == ts.len(),
                    *term == TextTerm::Or(*items),
                    ts == terms_model(items@),
                    forall|j: int| 0 <= j < ts.len() ==> #[trigger] ts[j] == term_model(items@[j]),
                    strings_view(out@) == needles_of(ts.take(i as int)),
                decreases items.len() - i,
            {
                proof {
                    assert(*term == TextTerm::Or(*items));
                    assert(decreases_to!(*term => (*term)->Or_0));
                    assert((*term)->Or_0 == *items);
                    assert(decreases_to!(*items => items@));
                    assert(decreases_to!(items@ => items@[i as int]));
                }
                let sub = term_needles(&items[i]);
                assert(ts.take(i + 1).drop_last() =~= ts.take(i as int));
                assert(ts.take(i + 1).last() == term_model(items@[i as int]));
                let mut k: usize = 0;
                let ghost base = strings_view(out@);
                while k < sub.len()
                    invariant
                        k <= sub@.len(),
                        strings_view(out@) == base + strings_view(sub@).take(k as int),
                    decreases sub.len() - k,
                {
                    let ghost b2 = strings_view(out@);
                    out.push(sub[k].clone());
                    assert(strings_view(out@) =~= b2.push(sub@[k as int]@));
                    assert(strings_view(sub@).take(k + 1) =~= strings_view(sub@).take(k as int).push(
                        sub@[k as int]@,
                    ));
                    assert(strings_view(out@) =~= base + strings_view(sub@).take(k + 1));
                    k += 1;
                }
                assert(strings_view(sub@).take(sub@.len() as int) =~= strings_view(sub@));
                i += 1;
            }
            assert(ts.take(ts.len() as int) =~= ts);
            out
        },
    }
}

} // verus!
