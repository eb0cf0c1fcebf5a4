use vstd::prelude::*;
use vstd::string::*;

verus! {

/// Rough number of language-model tokens in `text`: one per four characters
/// (Unicode scalar values, not bytes), rounded down.
pub fn estimate_tokens(text: &str) -> (r: usize)
    ensures
        r == text@.len() / 4,
{
    text.unicode_len() / 4
}

/// The rule drawn above and below each file's name.
pub open spec fn banner() -> Seq<char> {
    "================================================\n"@
}

/// The text shown for a file's body: its content ending in a newline, or a
/// placeholder when it could not be read as text.
pub open spec fn body_text(body: Option<String>) -> Seq<char> {
    match body {
        Some(c) => if c@.len() > 0 && c@.last() == '\n' {
            c@
        } else {
            c@ + "\n"@
        },
        None => "[Binary file or read error]\n"@,
    }
}

/// The block of one file: banner, name, banner, body.
pub open spec fn file_block(path: Seq<char>, body: Option<String>) -> Seq<char> {
    banner() + "FILE: "@ + path + "\n"@ + banner() + body_text(body)
}

/// The blocks of `files` in order, separated by blank lines.
pub open spec fn contents_text(files: Seq<(String, Option<String>)>) -> Seq<char>
    decreases files.len(),
{
    if files.len() == 0 {
        Seq::empty()
    } else {
        contents_text(files.drop_last()) + (if files.len() > 1 {
            "\n"@
        } else {
            Seq::empty()
        }) + file_block(files.last().0@, files.last().1)
    }
}

/// Renders the contents section from each file's relative path and its text
/// (`None` where the file could not be read as text).
pub fn generate_file_contents(files: &Vec<(String, Option<String>)>) -> (r: String)
    ensures
        r@ == contents_text(files@),
{
    let mut out = String::new();
    let mut i: usize = 0;
    assert(files@.take(0) == Seq::<(String, Option<String>)>::empty());
    while i < files.len()
        invariant
            i <= files@.len(),
            out@ == contents_text(files@.take(i as int)),
        decreases files.len() - i,
    {
        let ghost before = out@;
        let ghost sep: Seq<char>;
        if i > 0 {
            out.append("\n");
            proof {
                sep = "\n"@;
            }
        } else {
            proof {
                sep = Seq::empty();
            }
            assert(out@ == before + sep);
        }
        let (path, body) = &files[i];
        out.append("================================================\n");
        out.append("FILE: ");
        out.append(path.as_str());
        out.append("\n");
        out.append("================================================\n");
        match body {
            Some(c) => {
                out.append(c.as_str());
                let n = c.as_str().unicode_len();
                if n == 0 || c.as_str().get_char(n - 1) != '\n' {
                    out.append("\n");
                }
            },
            None => {
                out.append("[Binary file or read error]\n");
            },
        }
        assert(files@.take(i + 1).drop_last() == files@.take(i as int));
        assert(files@.take(i + 1).last() == files@[i as int]);
        assert(out@ == before + sep + file_block(path@, *body));
        i = i + 1;
    }
    assert(files@.take(i as int) == files@);
    out
}

/// The whole output: the tree section followed by a blank line, the contents
/// section, and a closing prompt line; each part only when given.
pub open spec fn output_text(
    tree: Option<String>,
    contents: Option<String>,
    prompt: Option<String>,
) -> Seq<char> {
    (match tree {
        Some(t) => t@ + "\n"@,
        None => Seq::empty(),
    }) + (match contents {
        Some(c) => c@,
        None => Seq::empty(),
    }) + (match prompt {
        Some(p) => "\nPrompt: "@ + p@ + "\n"@,
        None => Seq::empty(),
    })
}

/// Joins the rendered sections and the optional prompt into the output text.
pub fn assemble_output(tree: Option<String>, contents: Option<String>, prompt: Option<String>) -> (r:
    String)
    ensures
        r@ == output_text(tree, contents, prompt),
{
    let mut out = String::new();
    let ghost a: Seq<char>;
    let ghost b: Seq<char>;
    match &tree {
        Some(t) => {
            out.append(t.as_str());
            out.append("\n");
            proof {
                a = t@ + "\n"@;
            }
        },
        None => {
            proof {
                a = Seq::empty();
            }
        },
    }
    assert(out@ == a);
    match &contents {
        Some(c) => {
            out.append(c.as_str());
            proof {
                b = c@;
            }
        },
        None => {
            proof {
                b = Seq::empty();
            }
            assert(out@ == a + b);
        },
    }
    match &prompt {
        Some(p) => {
            out.append("\nPrompt: ");
            out.append(p.as_str());
            out.append("\n");
            assert(out@ == a + b + ("\nPrompt: "@ + p@ + "\n"@));
        },
        None => {
            assert(out@ == a + b + Seq::<char>::empty());
        },
    }
    out
}

} // verus!
