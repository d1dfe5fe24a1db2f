//! The recursive configuration parse as a state machine.
//!
//! The session holds a stack of files being parsed. It consumes lines one
//! at a time; on an `import` directive it asks for the imported file's
//! text, and it refuses a file that is already being parsed, so an import
//! cycle fails instead of recursing forever. The code around the library
//! reads the files and hands their text in.

use vstd::prelude::*;
use crate::config::{
    Config, SpecConfig, SpecLine, empty_config, spec_apply_line, spec_extend, spec_parse_line,
};
use crate::text::{split_on, string_to_chars, chars_to_string, split_chars, str_eq};

verus! {

/// A line without its trailing carriage return.
pub open spec fn strip_cr(l: Seq<char>) -> Seq<char> {
    if l.len() > 0 && l.last() == '\r' {
        l.drop_last()
    } else {
        l
    }
}

/// The lines of a text: split on newlines, a final empty piece dropped,
/// trailing carriage returns removed.
pub open spec fn lines_of(s: Seq<char>) -> Seq<Seq<char>> {
    let ps = split_on(s, '\n');
    let ps2 = if ps.len() > 0 && ps.last().len() == 0 {
        ps.drop_last()
    } else {
        ps
    };
    ps2.map_values(|l: Seq<char>| strip_cr(l))
}

/// Split a text into its lines.
#[verifier::loop_isolation(false)]
pub fn split_lines(text: &str) -> (r: Vec<String>)
    ensures
        r@.map_values(|l: String| l@) == lines_of(text@),
{
    let v = string_to_chars(text);
    let mut pieces = split_chars(&v, '\n');
    let ghost ps = split_on(text@, '\n');
    proof {
        assert(pieces@.map_values(|p: Vec<char>| p@) == ps);
    }
    if pieces.len() > 0 && pieces[pieces.len() - 1].len() == 0 {
        proof {
            assert(pieces@[pieces@.len() - 1]@ == ps.last());
        }
        pieces.pop();
        proof {
            assert(pieces@.map_values(|p: Vec<char>| p@) =~= ps.drop_last());
        }
    }
    let ghost ps2 = if ps.len() > 0 && ps.last().len() == 0 {
        ps.drop_last()
    } else {
        ps
    };
    proof {
        assert(pieces@.map_values(|p: Vec<char>| p@) == ps2);
    }
    let mut out: Vec<String> = Vec::new();
    let mut i: usize = 0;
    proof {
        assert(out@.map_values(|l: String| l@) =~= ps2.map_values(
            |l: Seq<char>| strip_cr(l),
        ).take(0));
    }
    while i < pieces.len()
        invariant
            i <= pieces@.len(),
            pieces@.map_values(|p: Vec<char>| p@) == ps2,
            out@.map_values(|l: String| l@) == ps2.map_values(|l: Seq<char>| strip_cr(l)).take(
                i as int,
            ),
        decreases pieces@.len() - i,
    {
        let mut piece: Vec<char> = Vec::new();
        let src = &pieces[i];
        let n = if src.len() > 0 && src[src.len() - 1] == '\r' {
            src.len() - 1
        } else {
            src.len()
        };
        let mut t: usize = 0;
        while t < n
            invariant
                t <= n <= src@.len(),
                piece@ =~= src@.subrange(0, t as int),
            decreases n - t,
        {
            piece.push(src[t]);
            t = t + 1;
        }
        proof {
            assert(pieces@[i as int]@ == ps2[i as int]);
            assert(piece@ =~= strip_cr(ps2[i as int]));
        }
        out.push(chars_to_string(&piece));
        proof {
            assert(out@.map_values(|l: String| l@) =~= ps2.map_values(
                |l: Seq<char>| strip_cr(l),
            ).take(i + 1));
        }
        i = i + 1;
    }
    proof {
        let m = ps2.map_values(|l: Seq<char>| strip_cr(l));
        assert(m.take(m.len() as int) =~= m);
    }
    out
}

/// One file being parsed.
struct Frame {
    path: String,
    lines: Vec<String>,
    next: usize,
    config: Config,
}

/// A frame at the spec level.
#[verifier::ext_equal]
pub struct SpecFrame {
    pub path: Seq<char>,
    pub lines: Seq<Seq<char>>,
    pub next: int,
    pub config: SpecConfig,
}

impl View for Frame {
    type V = SpecFrame;

    closed spec fn view(&self) -> SpecFrame {
        SpecFrame {
            path: self.path@,
            lines: self.lines@.map_values(|l: String| l@),
            next: self.next as int,
            config: self.config@,
        }
    }
}

/// What one step of the session asks for or yields.
pub enum ParseStep {
    /// A line was consumed or a finished file was merged.
    Progress,
    /// An `import` directive: the raw path, and the path of the importing
    /// file to resolve it against.
    NeedFile { path: String, parent: String },
    /// The root file is finished; the merged configuration.
    Done(Config),
}

/// The recursive parse of a configuration file and its imports.
pub struct ParseSession {
    stack: Vec<Frame>,
}

impl View for ParseSession {
    type V = Seq<SpecFrame>;

    closed spec fn view(&self) -> Seq<SpecFrame> {
        self.stack@.map_values(|f: Frame| f@)
    }
}

impl ParseSession {
    /// Begin parsing the root file from its text.
    pub fn new(root_path: String, root_text: &str) -> (r: ParseSession)
        ensures
            r@ =~~= seq![
                (SpecFrame {
                    path: root_path@,
                    lines: lines_of(root_text@),
                    next: 0,
                    config: empty_config(),
                }),
            ],
    {
        let lines = split_lines(root_text);
        let frame = Frame { path: root_path, lines, next: 0, config: Config::new() };
        proof {
            assert(frame.config@ =~~= empty_config());
        }
        let mut stack: Vec<Frame> = Vec::new();
        stack.push(frame);
        let r = ParseSession { stack };
        r
    }

    /// Hand the session the text of a file it asked for. Refused, leaving
    /// the session unchanged, when that file is already being parsed:
    /// the import cycle would never end.
    pub fn provide_file(&mut self, path: String, text: &str) -> (r: bool)
        ensures
            r == !(exists|i: int| 0 <= i < old(self)@.len() && (#[trigger] old(self)@[i]).path
                == path@),
            r ==> final(self)@ =~~= old(self)@.push(
                (SpecFrame {
                    path: path@,
                    lines: lines_of(text@),
                    next: 0,
                    config: empty_config(),
                }),
            ),
            !r ==> *final(self) == *old(self),
    {
        let mut i: usize = 0;
        while i < self.stack.len()
            invariant
                i <= self@.len(),
                forall|j: int| 0 <= j < i ==> (#[trigger] self@[j]).path != path@,
        decreases self@.len() - i,
        {
            proof {
                assert(self@[i as int].path == self.stack@[i as int].path@);
            }
            if str_eq(self.stack[i].path.as_str(), path.as_str()) {
                return false;
            }
            i = i + 1;
        }
        let lines = split_lines(text);
        let frame = Frame { path, lines, next: 0, config: Config::new() };
        proof {
            assert(frame.config@ =~~= empty_config());
        }
        self.stack.push(frame);
        true
    }

    /// One step of the parse: consume the next line of the innermost file,
    /// ask for an imported file, or merge a finished file into its parent.
    #[verifier::loop_isolation(false)]
    #[verifier::rlimit(100)]
    pub fn step(&mut self) -> (r: ParseStep)
        ensures
            old(self)@.len() == 0 ==> r is Progress && *final(self) == *old(self),
            old(self)@.len() > 0 ==> ({
                let st = old(self)@;
                let top = st.last();
                if top.next < top.lines.len() {
                    // one line is consumed
                    let line = top.lines[top.next];
                    let top2 = (SpecFrame {
                        next: top.next + 1,
                        config: spec_apply_line(top.config, top.next + 1, line),
                        ..top
                    });
                    final(self)@ == st.update(st.len() - 1, top2) && (match spec_parse_line(
                        line,
                    ) {
                        SpecLine::Import(p) => (r matches ParseStep::NeedFile { path, parent }
                            && path@ == p && parent@ == top.path),
                        _ => r is Progress,
                    })
                } else if st.len() == 1 {
                    // the root file is finished
                    final(self)@.len() == 0 && (r matches ParseStep::Done(c) && c@ == top.config)
                } else {
                    // a finished import is merged into its parent
                    let parent = st[st.len() - 2];
                    let parent2 = (SpecFrame {
                        config: spec_extend(parent.config, top.config),
                        ..parent
                    });
                    final(self)@ == st.drop_last().update(st.len() - 2, parent2) && r
                        is Progress
                }
            }),
    {
        if self.stack.len() == 0 {
            return ParseStep::Progress;
        }
        let ghost st = self@;
        let mut top = self.stack.pop().unwrap();
        proof {
            assert(st.last() == top@);
            assert(self@ =~= st.drop_last());
        }
        if top.next < top.lines.len() {
            let number = top.next + 1;
            let ghost line = top@.lines[top.next as int];
            let import = {
                let line_ref = &top.lines[top.next];
                top.config.apply_line(number, line_ref.as_str())
            };
            top.next = number;
            let ghost top2v = top@;
            proof {
                assert(top2v.config =~~= spec_apply_line(st.last().config, top2v.next, line));
            }
            self.stack.push(top);
            proof {
                assert(self@ =~~= st.update(st.len() - 1, top2v));
            }
            match import {
                Some(p) => {
                    let parent = {
                        let f = &self.stack[self.stack.len() - 1];
                        f.path.clone()
                    };
                    proof {
                        assert(parent@ == st.last().path);
                    }
                    ParseStep::NeedFile { path: p, parent }
                },
                None => ParseStep::Progress,
            }
        } else if self.stack.len() == 0 {
            ParseStep::Done(top.config)
        } else {
            let mut parent = self.stack.pop().unwrap();
            proof {
                assert(parent@ == st[st.len() - 2]);
                assert(self@ =~= st.drop_last().drop_last());
            }
            parent.config.extend(top.config);
            let ghost parent2v = parent@;
            proof {
                assert(parent2v.config =~~= spec_extend(st[st.len() - 2].config, st.last().config));
            }
            self.stack.push(parent);
            proof {
                assert(self@ =~~= st.drop_last().update(st.len() - 2, parent2v));
            }
            ParseStep::Progress
        }
    }
}

} // verus!
