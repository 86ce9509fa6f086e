//! The `Display-hint` message header.
use crate::chars;
use crate::chars::{
    chars_eq, next_piece, parse_integer, position, to_chars, to_lower, to_text, trimmed,
};
use crate::error::{Error, Fault};
use crate::single;
use crate::single::{read_single, Single};
use vstd::prelude::*;

verus! {

/// One coordinate of a display hint.
#[derive(Clone, Debug, PartialEq)]
pub enum DisplayCoord {
    /// A position or extent in pixels.
    Pixels(i32),
    /// A percentage.
    Percent(Single),
}

/// What a [`DisplayCoord`] stands for: of a percentage, its bits.
pub enum CoordView {
    Pixels(i32),
    Percent(u32),
}

impl View for DisplayCoord {
    type V = CoordView;

    open spec fn view(&self) -> CoordView {
        match self {
            DisplayCoord::Pixels(n) => CoordView::Pixels(*n),
            DisplayCoord::Percent(s) => CoordView::Percent(s@),
        }
    }
}

/// `s` without a `%` at its end.
pub open spec fn without_percent(s: Seq<char>) -> Seq<char> {
    if s.len() > 0 && s.last() == '%' {
        s.drop_last()
    } else {
        s
    }
}

/// The coordinate that a token spells, or what is wrong with it.
pub open spec fn coord_in(token: Seq<char>) -> Result<CoordView, Fault> {
    let t = chars::trim(token);
    if t.len() > 0 && t.last() == '%' {
        let number = chars::trim(t.drop_last());
        if chars::real_notation(number) {
            Ok(CoordView::Percent(single::bits_in(number)))
        } else {
            Err(Fault::HintPercent)
        }
    } else {
        match chars::integer_within(t, i32::MIN as int, i32::MAX as int) {
            Some(n) => Ok(CoordView::Pixels(n as i32)),
            None => Err(Fault::HintPixels),
        }
    }
}

impl DisplayCoord {
    fn parse(token: &[char]) -> (r: Result<DisplayCoord, Error>)
        ensures
            match r {
                Ok(c) => coord_in(token@) == Ok::<CoordView, Fault>(c@),
                Err(e) => coord_in(token@) matches Err(fault) && e == Error::InvalidData(fault),
            },
    {
        let t = trimmed(token);
        let n: usize = t.len();
        if n > 0 && t[n - 1] == '%' {
            let front = vstd::slice::slice_subrange(t, 0, n - 1);
            assert(front@ =~= t@.drop_last());
            let number = trimmed(front);
            match read_single(number) {
                Some(v) => Ok(DisplayCoord::Percent(v)),
                None => Err(Error::InvalidData(Fault::HintPercent)),
            }
        } else {
            match parse_integer(t, i32::MIN as i64, i32::MAX as i64) {
                Some(v) => Ok(DisplayCoord::Pixels(v as i32)),
                None => Err(Error::InvalidData(Fault::HintPixels)),
            }
        }
    }
}

/// The value of a `Display-hint` header.
#[derive(Clone, Debug, PartialEq)]
pub enum DisplayHint {
    /// Picture-in-picture: an origin and an optional extent.
    Pip {
        x: DisplayCoord,
        y: DisplayCoord,
        width: Option<DisplayCoord>,
        height: Option<DisplayCoord>,
    },
    /// A mask: an image and an optional placement.
    Mask {
        image: String,
        x: Option<DisplayCoord>,
        y: Option<DisplayCoord>,
        width: Option<DisplayCoord>,
        height: Option<DisplayCoord>,
    },
    /// A uniform transparency, in percent.
    Transparent { percent: u8 },
    /// Any other hint: its tag as written and its arguments.
    Other { tag: String, arguments: Vec<String> },
}

/// What a [`DisplayHint`] stands for.
pub enum HintView {
    Pip { x: CoordView, y: CoordView, extent: Option<(CoordView, CoordView)> },
    Mask {
        image: Seq<char>,
        origin: Option<(CoordView, CoordView)>,
        extent: Option<(CoordView, CoordView)>,
    },
    Transparent { percent: u8 },
    Other { tag: Seq<char>, arguments: Seq<Seq<char>> },
}

/// Two optional coordinates that are given together.
pub open spec fn pair_view(a: Option<DisplayCoord>, b: Option<DisplayCoord>) -> Option<
    (CoordView, CoordView),
> {
    match (a, b) {
        (Some(a), Some(b)) => Some((a@, b@)),
        _ => None,
    }
}

/// Whether two optional coordinates are given together or not at all.
pub open spec fn paired(a: Option<DisplayCoord>, b: Option<DisplayCoord>) -> bool {
    a is Some <==> b is Some
}

impl DisplayHint {
    /// Coordinates come in pairs.
    pub open spec fn wf(self) -> bool {
        match self {
            DisplayHint::Pip { x, y, width, height } => paired(width, height),
            DisplayHint::Mask { image, x, y, width, height } => paired(x, y) && paired(
                width,
                height,
            ),
            _ => true,
        }
    }
}

impl View for DisplayHint {
    type V = HintView;

    open spec fn view(&self) -> HintView {
        match *self {
            DisplayHint::Pip { x, y, width, height } => HintView::Pip {
                x: x@,
                y: y@,
                extent: pair_view(width, height),
            },
            DisplayHint::Mask { image, x, y, width, height } => HintView::Mask {
                image: image@,
                origin: pair_view(x, y),
                extent: pair_view(width, height),
            },
            DisplayHint::Transparent { percent } => HintView::Transparent { percent },
            DisplayHint::Other { tag, arguments } => HintView::Other {
                tag: tag@,
                arguments: arguments@.map_values(|a: String| a@),
            },
        }
    }
}

/// The arguments between the brackets: the trimmed pieces between commas, none
/// where there is nothing but white space.
pub open spec fn arguments_in(body: Seq<char>) -> Seq<Seq<char>> {
    if chars::trim(body).len() == 0 {
        Seq::empty()
    } else {
        chars::split(body, ',').map_values(|piece: Seq<char>| chars::trim(piece))
    }
}

/// Two coordinates at `i`, or what is wrong with the first bad one.
pub open spec fn pair_at(args: Seq<Seq<char>>, i: int) -> Result<(CoordView, CoordView), Fault> {
    match coord_in(args[i]) {
        Err(fault) => Err(fault),
        Ok(a) => match coord_in(args[i + 1]) {
            Err(fault) => Err(fault),
            Ok(b) => Ok((a, b)),
        },
    }
}

/// The picture-in-picture hint with these arguments.
pub open spec fn pip_with(args: Seq<Seq<char>>) -> Result<HintView, Fault> {
    if args.len() != 2 && args.len() != 4 {
        Err(Fault::HintPipArguments { count: args.len() as usize })
    } else {
        match pair_at(args, 0) {
            Err(fault) => Err(fault),
            Ok((x, y)) => if args.len() == 2 {
                Ok(HintView::Pip { x, y, extent: None })
            } else {
                match pair_at(args, 2) {
                    Err(fault) => Err(fault),
                    Ok(extent) => Ok(HintView::Pip { x, y, extent: Some(extent) }),
                }
            },
        }
    }
}

/// The mask hint with these arguments.
pub open spec fn mask_with(args: Seq<Seq<char>>) -> Result<HintView, Fault> {
    if args.len() != 1 && args.len() != 3 && args.len() != 5 {
        Err(Fault::HintMaskArguments { count: args.len() as usize })
    } else if args.len() == 1 {
        Ok(HintView::Mask { image: args[0], origin: None, extent: None })
    } else {
        match pair_at(args, 1) {
            Err(fault) => Err(fault),
            Ok(origin) => if args.len() == 3 {
                Ok(HintView::Mask { image: args[0], origin: Some(origin), extent: None })
            } else {
                match pair_at(args, 3) {
                    Err(fault) => Err(fault),
                    Ok(extent) => Ok(
                        HintView::Mask {
                            image: args[0],
                            origin: Some(origin),
                            extent: Some(extent),
                        },
                    ),
                }
            },
        }
    }
}

/// The transparency hint with these arguments.
pub open spec fn transparent_with(args: Seq<Seq<char>>) -> Result<HintView, Fault> {
    if args.len() != 1 {
        Err(Fault::HintTransparentArguments { count: args.len() as usize })
    } else {
        let number = chars::trim(without_percent(args[0]));
        match chars::integer_within(number, 0, u32::MAX as int) {
            Some(n) => if number[0] == '-' {
                Err(Fault::HintTransparency)
            } else if n > 100 {
                Err(Fault::HintTransparencyRange { percent: n as u32 })
            } else {
                Ok(HintView::Transparent { percent: n as u8 })
            },
            None => Err(Fault::HintTransparency),
        }
    }
}

/// The hint that `raw` spells, or what is wrong with it.
pub open spec fn hint_in(raw: Seq<char>) -> Result<HintView, Fault> {
    let value = chars::trim(raw);
    match chars::find(value, '(') {
        None => Err(Fault::HintOpening),
        Some(open) => {
            let tag = chars::trim(value.take(open));
            let args = arguments_in(value.subrange(open + 1, value.len() - 1));
            let name = chars::lower(tag);
            if value.last() != ')' {
                Err(Fault::HintClosing)
            } else if tag.len() == 0 {
                Err(Fault::HintTag)
            } else if name == "pip"@ {
                pip_with(args)
            } else if name == "mask"@ {
                mask_with(args)
            } else if name == "transparent"@ {
                transparent_with(args)
            } else {
                Ok(HintView::Other { tag, arguments: args })
            }
        },
    }
}

/// The contents of a list of texts.
pub open spec fn texts_view(list: Seq<Vec<char>>) -> Seq<Seq<char>> {
    list.map_values(|t: Vec<char>| t@)
}

fn read_arguments(body: &[char]) -> (out: Vec<Vec<char>>)
    ensures
        texts_view(out@) == arguments_in(body@),
{
    let mut out: Vec<Vec<char>> = Vec::new();
    if trimmed(body).len() == 0 {
        assert(texts_view(out@) =~= Seq::<Seq<char>>::empty());
        return out;
    }
    let ghost cut = |piece: Seq<char>| chars::trim(piece);
    let ghost all = chars::split(body@, ',').map_values(cut);
    let mut pos: usize = 0;
    let mut more: bool = true;
    proof {
        assert(body@.skip(0) =~= body@);
        assert(texts_view(out@) + all =~= all);
    }
    while more
        invariant
            pos <= body@.len(),
            cut == (|piece: Seq<char>| chars::trim(piece)),
            more ==> texts_view(out@) + chars::split(body@.skip(pos as int), ',').map_values(cut)
                == all,
            !more ==> texts_view(out@) == all,
        decreases (if more { body@.len() - pos + 1 } else { 0 }),
    {
        let ghost before = texts_view(out@);
        let ghost pieces = chars::split(body@.skip(pos as int), ',');
        let (end, follows) = next_piece(body, ',', pos);
        let piece = vstd::slice::slice_subrange(body, pos, end);
        let text = vstd::slice::slice_to_vec(trimmed(piece));
        proof {
            let rest = if follows {
                chars::split(body@.skip(end + 1), ',')
            } else {
                Seq::empty()
            };
            assert(pieces =~= seq![piece@] + rest);
            assert(pieces.map_values(cut) =~= seq![text@] + rest.map_values(cut));
            assert(before + (seq![text@] + rest.map_values(cut)) =~= before.push(text@)
                + rest.map_values(cut));
        }
        out.push(text);
        proof {
            assert(texts_view(out@) =~= before.push(text@));
            if !follows {
                assert(texts_view(out@) + Seq::<Seq<char>>::empty() =~= texts_view(out@));
                assert(Seq::<Seq<char>>::empty().map_values(cut) =~= Seq::<Seq<char>>::empty());
            }
        }
        more = follows;
        pos = if follows {
            end + 1
        } else {
            end
        };
    }
    out
}

fn read_pair(args: &Vec<Vec<char>>, i: usize) -> (r: Result<(DisplayCoord, DisplayCoord), Error>)
    requires
        i + 1 < args@.len(),
    ensures
        match r {
            Ok((a, b)) => pair_at(texts_view(args@), i as int) == Ok::<
                (CoordView, CoordView),
                Fault,
            >((a@, b@)),
            Err(e) => pair_at(texts_view(args@), i as int) matches Err(fault) && e
                == Error::InvalidData(fault),
        },
{
    assert(args@.len() == args.len());
    let a = match DisplayCoord::parse(args[i].as_slice()) {
        Ok(a) => a,
        Err(e) => return Err(e),
    };
    match DisplayCoord::parse(args[i + 1].as_slice()) {
        Ok(b) => Ok((a, b)),
        Err(e) => Err(e),
    }
}

fn read_pip(args: &Vec<Vec<char>>) -> (r: Result<DisplayHint, Error>)
    ensures
        match r {
            Ok(h) => h.wf() && pip_with(texts_view(args@)) == Ok::<HintView, Fault>(h@),
            Err(e) => pip_with(texts_view(args@)) matches Err(fault) && e == Error::InvalidData(
                fault,
            ),
        },
{
    if args.len() != 2 && args.len() != 4 {
        return Err(Error::InvalidData(Fault::HintPipArguments { count: args.len() }));
    }
    let (x, y) = match read_pair(args, 0) {
        Ok(p) => p,
        Err(e) => return Err(e),
    };
    if args.len() == 2 {
        return Ok(DisplayHint::Pip { x, y, width: None, height: None });
    }
    match read_pair(args, 2) {
        Ok((w, h)) => Ok(DisplayHint::Pip { x, y, width: Some(w), height: Some(h) }),
        Err(e) => Err(e),
    }
}

fn read_mask(args: &Vec<Vec<char>>) -> (r: Result<DisplayHint, Error>)
    ensures
        match r {
            Ok(h) => h.wf() && mask_with(texts_view(args@)) == Ok::<HintView, Fault>(h@),
            Err(e) => mask_with(texts_view(args@)) matches Err(fault) && e == Error::InvalidData(
                fault,
            ),
        },
{
    let n: usize = args.len();
    if n != 1 && n != 3 && n != 5 {
        return Err(Error::InvalidData(Fault::HintMaskArguments { count: n }));
    }
    let image = to_text(args[0].as_slice());
    if n == 1 {
        return Ok(DisplayHint::Mask { image, x: None, y: None, width: None, height: None });
    }
    let (x, y) = match read_pair(args, 1) {
        Ok(p) => p,
        Err(e) => return Err(e),
    };
    if n == 3 {
        return Ok(
            DisplayHint::Mask { image, x: Some(x), y: Some(y), width: None, height: None },
        );
    }
    match read_pair(args, 3) {
        Ok((w, h)) => Ok(
            DisplayHint::Mask {
                image,
                x: Some(x),
                y: Some(y),
                width: Some(w),
                height: Some(h),
            },
        ),
        Err(e) => Err(e),
    }
}

fn read_transparent(args: &Vec<Vec<char>>) -> (r: Result<DisplayHint, Error>)
    ensures
        match r {
            Ok(h) => h.wf() && transparent_with(texts_view(args@)) == Ok::<HintView, Fault>(h@),
            Err(e) => transparent_with(texts_view(args@)) matches Err(fault) && e
                == Error::InvalidData(fault),
        },
{
    if args.len() != 1 {
        return Err(Error::InvalidData(Fault::HintTransparentArguments { count: args.len() }));
    }
    let arg = args[0].as_slice();
    let n: usize = arg.len();
    let bare = if n > 0 && arg[n - 1] == '%' {
        let front = vstd::slice::slice_subrange(arg, 0, n - 1);
        assert(front@ =~= arg@.drop_last());
        front
    } else {
        arg
    };
    let number = trimmed(bare);
    match parse_integer(number, 0, u32::MAX as i64) {
        Some(v) => {
            assert(number@.len() > 0);
            if number[0] == '-' {
                Err(Error::InvalidData(Fault::HintTransparency))
            } else if v > 100 {
                Err(Error::InvalidData(Fault::HintTransparencyRange { percent: v as u32 }))
            } else {
                Ok(DisplayHint::Transparent { percent: v as u8 })
            }
        },
        None => Err(Error::InvalidData(Fault::HintTransparency)),
    }
}

impl DisplayHint {
    /// Reads the value of a `Display-hint` header: a tag and arguments in
    /// brackets.
    pub fn parse(raw: &str) -> (r: Result<DisplayHint, Error>)
        ensures
            match r {
                Ok(h) => h.wf() && hint_in(raw@) == Ok::<HintView, Fault>(h@),
                Err(e) => hint_in(raw@) matches Err(fault) && e == Error::InvalidData(fault),
            },
    {
        let all = to_chars(raw);
        let value = trimmed(all.as_slice());
        let n: usize = value.len();
        let open: usize = match position(value, '(') {
            Some(i) => i,
            None => return Err(Error::InvalidData(Fault::HintOpening)),
        };
        proof {
            chars::lemma_find(value@, '(', 0);
        }
        if value[n - 1] != ')' {
            return Err(Error::InvalidData(Fault::HintClosing));
        }
        let front = vstd::slice::slice_subrange(value, 0, open);
        assert(front@ =~= value@.take(open as int));
        let tag = trimmed(front);
        if tag.len() == 0 {
            return Err(Error::InvalidData(Fault::HintTag));
        }
        let args = read_arguments(vstd::slice::slice_subrange(value, open + 1, n - 1));
        let small = to_lower(tag);
        let name = small.as_slice();
        if chars_eq(name, "pip") {
            return read_pip(&args);
        }
        if chars_eq(name, "mask") {
            return read_mask(&args);
        }
        if chars_eq(name, "transparent") {
            return read_transparent(&args);
        }
        let mut arguments: Vec<String> = Vec::new();
        let mut i: usize = 0;
        while i < args.len()
            invariant
                i <= args@.len(),
                arguments@.len() == i,
                forall|k: int| 0 <= k < i ==> (#[trigger] arguments@[k])@ == args@[k]@,
            decreases args@.len() - i,
        {
            arguments.push(to_text(args[i].as_slice()));
            i += 1;
        }
        assert(arguments@.map_values(|a: String| a@) =~= texts_view(args@));
        Ok(DisplayHint::Other { tag: to_text(tag), arguments })
    }
}

} // verus!
