//! `key=value` parameters between semicolons.
use crate::chars;
use crate::chars::{eq_ignore_case, next_piece, position, to_text, trimmed};
use vstd::prelude::*;

verus! {

/// A key and its value.
pub type ParameterView = (Seq<char>, Seq<char>);

/// What a list of parameters stands for.
pub open spec fn parameters_view(list: Seq<(String, String)>) -> Seq<ParameterView> {
    list.map_values(|p: (String, String)| (p.0@, p.1@))
}

/// The parameter that one piece of text spells: nothing where it is blank, else
/// what stands before and behind the first `=`, or the whole piece as a key.
pub open spec fn parameter_in(piece: Seq<char>) -> Option<ParameterView> {
    let p = chars::trim(piece);
    if p.len() == 0 {
        None
    } else {
        match chars::find(p, '=') {
            Some(i) => Some((chars::trim(p.take(i)), chars::trim(p.skip(i + 1)))),
            None => Some((p, Seq::empty())),
        }
    }
}

/// The parameters that pieces of text spell, in their order.
pub open spec fn parameters_in(pieces: Seq<Seq<char>>) -> Seq<ParameterView>
    decreases pieces.len(),
{
    if pieces.len() == 0 {
        Seq::empty()
    } else {
        let rest = parameters_in(pieces.skip(1));
        match parameter_in(pieces[0]) {
            Some(p) => seq![p] + rest,
            None => rest,
        }
    }
}

/// The value of the first parameter whose key is `name` but for case.
pub open spec fn value_of(list: Seq<ParameterView>, name: Seq<char>) -> Option<Seq<char>>
    decreases list.len(),
{
    if list.len() == 0 {
        None
    } else if chars::same_ignoring_case(list[0].0, name) {
        Some(list[0].1)
    } else {
        value_of(list.skip(1), name)
    }
}

fn read_parameter(piece: &[char]) -> (r: Option<(String, String)>)
    ensures
        match r {
            Some((k, v)) => parameter_in(piece@) == Some((k@, v@)),
            None => parameter_in(piece@) is None,
        },
{
    let p = trimmed(piece);
    let n: usize = p.len();
    if n == 0 {
        return None;
    }
    match position(p, '=') {
        Some(i) => {
            let key = vstd::slice::slice_subrange(p, 0, i);
            let value = vstd::slice::slice_subrange(p, i + 1, n);
            assert(key@ =~= p@.take(i as int));
            assert(value@ =~= p@.skip(i + 1));
            Some((to_text(trimmed(key)), to_text(trimmed(value))))
        },
        None => Some((to_text(p), String::new())),
    }
}

/// Reads the parameters of `v` from index `from` on, where a piece begins.
pub fn read_parameters(v: &[char], from: usize) -> (out: Vec<(String, String)>)
    requires
        from <= v@.len(),
    ensures
        parameters_view(out@) == parameters_in(chars::split(v@.skip(from as int), ';')),
{
    let ghost all = parameters_in(chars::split(v@.skip(from as int), ';'));
    let mut out: Vec<(String, String)> = Vec::new();
    let mut pos: usize = from;
    let mut more: bool = true;
    assert(parameters_view(out@) + all =~= all);
    while more
        invariant
            pos <= v@.len(),
            more ==> parameters_view(out@) + parameters_in(
                chars::split(v@.skip(pos as int), ';'),
            ) == all,
            !more ==> parameters_view(out@) == all,
        decreases (if more { v@.len() - pos + 1 } else { 0 }),
    {
        let ghost before = parameters_view(out@);
        let ghost pieces = chars::split(v@.skip(pos as int), ';');
        let (end, follows) = next_piece(v, ';', pos);
        let piece = vstd::slice::slice_subrange(v, pos, end);
        proof {
            let rest = if follows {
                chars::split(v@.skip(end + 1), ';')
            } else {
                Seq::empty()
            };
            assert(pieces[0] == piece@);
            assert(pieces.skip(1) =~= rest);
            assert(parameters_in(Seq::<Seq<char>>::empty()) =~= Seq::<ParameterView>::empty());
        }
        if let Some(p) = read_parameter(piece) {
            out.push(p);
            proof {
                let view = (p.0@, p.1@);
                assert(parameters_view(out@) =~= before.push(view));
                assert(before + (seq![view] + parameters_in(pieces.skip(1))) =~= before.push(view)
                    + parameters_in(pieces.skip(1)));
            }
        }
        proof {
            if !follows {
                assert(parameters_view(out@) + Seq::<ParameterView>::empty() =~= parameters_view(
                    out@,
                ));
            }
        }
        more = follows;
        pos = if follows {
            end + 1
        } else {
            end
        };
    }
    out
}

/// The value of the first parameter whose key is `name` but for case.
pub fn parameter_value<'a>(list: &'a Vec<(String, String)>, name: &str) -> (r: Option<&'a str>)
    ensures
        match r {
            Some(v) => value_of(parameters_view(list@), name@) == Some(v@),
            None => value_of(parameters_view(list@), name@) is None,
        },
{
    let ghost all = parameters_view(list@);
    let mut i: usize = 0;
    assert(all.skip(0) =~= all);
    while i < list.len()
        invariant
            i <= list@.len(),
            all == parameters_view(list@),
            value_of(all, name@) == value_of(all.skip(i as int), name@),
        decreases list@.len() - i,
    {
        assert(all.skip(i as int).skip(1) =~= all.skip(i + 1));
        if eq_ignore_case(list[i].0.as_str(), name) {
            return Some(list[i].1.as_str());
        }
        i += 1;
    }
    None
}

} // verus!
