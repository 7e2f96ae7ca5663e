//! The export command: artifacts written out in a static text format.

use vstd::prelude::*;

use crate::text::{chars_of, lowercase, to_lowercase};

verus! {

broadcast use vstd::string::group_string_axioms;

/// The formats artifacts can be exported in.
#[derive(Debug, Copy, Clone, PartialEq, Eq, Structural)]
pub enum ExportType {
    Html,
}

/// The settings of one export: where to put the files, and in what format.
pub struct Config {
    path: String,
    ty: ExportType,
}

impl View for Config {
    type V = (Seq<char>, ExportType);

    closed spec fn view(&self) -> (Seq<char>, ExportType) {
        (self.path@, self.ty)
    }
}

pub open spec fn opt_view(o: Option<&str>) -> Option<Seq<char>> {
    match o {
        Some(s) => Some(s@),
        None => None,
    }
}

pub open spec fn html_text() -> Seq<char> {
    seq!['h', 't', 'm', 'l']
}

/// The export settings for the given path and format, or the message that
/// says what is wrong with them. The format is read case-insensitively.
pub open spec fn export_config(path: Option<Seq<char>>, ty: Option<Seq<char>>) -> Result<
    (Seq<char>, ExportType),
    Seq<char>,
> {
    match path {
        None => Err("no path selected"@),
        Some(p) => match ty {
            None => Err("no export type selected"@),
            Some(t) => if lowercase(t) == html_text() {
                Ok((p, ExportType::Html))
            } else {
                Err("invalid type selected: "@ + lowercase(t))
            },
        },
    }
}

/// Reads the export settings from the values given for `path` and `type`.
pub fn get_cmd(path: Option<&str>, ty: Option<&str>) -> (r: Result<Config, String>)
    ensures
        match r {
            Ok(c) => export_config(opt_view(path), opt_view(ty)) == Ok::<
                (Seq<char>, ExportType),
                Seq<char>,
            >(c@),
            Err(e) => export_config(opt_view(path), opt_view(ty)) == Err::<
                (Seq<char>, ExportType),
                Seq<char>,
            >(e@),
        },
{
    let path = match path {
        Some(p) => p.to_string(),
        None => return Err("no path selected".to_string()),
    };
    let ty = match ty {
        Some(t) => {
            let t = to_lowercase(t);
            let cs = chars_of(t.as_str());
            if cs.len() == 4 && cs[0] == 'h' && cs[1] == 't' && cs[2] == 'm' && cs[3] == 'l' {
                assert(t@ =~= html_text());
                ExportType::Html
            } else {
                assert(t@ != html_text());
                let mut msg = "invalid type selected: ".to_string();
                msg.append(t.as_str());
                return Err(msg);
            }
        },
        None => return Err("no export type selected".to_string()),
    };
    Ok(Config { path: path, ty: ty })
}

} // verus!
