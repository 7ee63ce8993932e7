//! Model resolution: the tested set only. A GGUF that *loads* is not a
//! GGUF that answers correctly: mechanical checks (chat template, single-
//! token letters) catch some failures at startup, but instruction-following
//! quality is only proven by running the eval suite.
use vstd::prelude::*;

use crate::schema;
use crate::text;

verus! {

/// A tested model: the name it goes by, and where its file lies.
pub struct Model {
    pub name: &'static str,
    pub repo: &'static str,
    pub file: &'static str,
}

pub const DEFAULT_MODEL: &'static str = "minicpm5-2b";

/// The tested models: name, repository, file.
pub open spec fn tested() -> Seq<(Seq<char>, Seq<char>, Seq<char>)> {
    seq![
        ("minicpm5-2b"@, "openbmb/MiniCPM5-2B-GGUF"@, "MiniCPM5-2B-Q4_K_M.gguf"@),
        ("qwen3.8-4b"@, "empero-ai/Qwen3.8-4B-Distill-GGUF"@, "Qwen3.8-4B-Q4_K_M.gguf"@),
        ("spark-4b"@, "XHToken/Spark-X2.5-4B-GGUF"@, "Spark-X2.5-4B-Q8_0.gguf"@),
        ("spark-4b-q4"@, "XHToken/Spark-X2.5-4B-GGUF"@, "Spark-X2.5-4B-Q4_K_M.gguf"@),
    ]
}

/// The texts of models.
pub open spec fn listed(ms: Seq<Model>) -> Seq<(Seq<char>, Seq<char>, Seq<char>)> {
    ms.map_values(|m: Model| (m.name@, m.repo@, m.file@))
}

/// The tested models.
pub fn models() -> (r: Vec<Model>)
    ensures
        listed(r@) == tested(),
{
    let mut r: Vec<Model> = Vec::new();
    r.push(
        Model { name: "minicpm5-2b", repo: "openbmb/MiniCPM5-2B-GGUF", file: "MiniCPM5-2B-Q4_K_M.gguf" },
    );
    r.push(
        Model { name: "qwen3.8-4b", repo: "empero-ai/Qwen3.8-4B-Distill-GGUF", file: "Qwen3.8-4B-Q4_K_M.gguf" },
    );
    r.push(Model { name: "spark-4b", repo: "XHToken/Spark-X2.5-4B-GGUF", file: "Spark-X2.5-4B-Q8_0.gguf" });
    r.push(Model { name: "spark-4b-q4", repo: "XHToken/Spark-X2.5-4B-GGUF", file: "Spark-X2.5-4B-Q4_K_M.gguf" });
    proof {
        assert(listed(r@) =~= tested());
    }
    r
}

/// The names of the tested models.
pub open spec fn names() -> Seq<Seq<char>> {
    tested().map_values(|m: (Seq<char>, Seq<char>, Seq<char>)| m.0)
}

/// What an unknown name, quoted so, is answered.
pub open spec fn unknown(shown: Seq<char>) -> Seq<char> {
    "unknown model "@ + shown + " — supported: "@ + text::joined(names(), ", "@)
}

/// What an unknown name, quoted so, is answered.
pub fn unknown_model(shown: &str) -> (r: String)
    ensures
        r@ == unknown(shown@),
{
    let ms: Vec<Model> = models();
    let mut known: Vec<String> = Vec::new();
    let mut i: usize = 0;
    proof {
        assert(text::views(known@) =~= names().take(0));
    }
    while i < ms.len()
        invariant
            i <= ms@.len(),
            listed(ms@) == tested(),
            text::views(known@) == names().take(i as int),
        decreases ms@.len() - i,
    {
        let ghost k0 = known@;
        known.push(ms[i].name.to_owned());
        proof {
            assert(listed(ms@)[i as int] == (ms@[i as int].name@, ms@[i as int].repo@, ms@[i as int].file@));
            assert(names()[i as int] == tested()[i as int].0);
            assert(text::views(known@) =~= text::views(k0).push(ms@[i as int].name@));
            assert(names().take(i + 1) =~= names().take(i as int).push(names()[i as int]));
        }
        i += 1;
    }
    proof {
        assert(listed(ms@).len() == tested().len());
        assert(names().take(i as int) =~= names());
    }
    "unknown model ".to_owned().concat(shown).concat(" — supported: ").concat(text::join(&known, ", ").as_str())
}

/// The tested model of a name.
pub fn resolve(name: &str) -> (r: Result<Model, String>)
    ensures
        match r {
            Ok(m) => m.name@ == name@ && tested().contains((m.name@, m.repo@, m.file@)),
            Err(e) => !names().contains(name@) && e@ == unknown(schema::debug_text(name@)),
        },
{
    let ms: Vec<Model> = models();
    let mut i: usize = 0;
    while i < ms.len()
        invariant
            i <= ms@.len(),
            listed(ms@) == tested(),
            forall|j: int| 0 <= j < i ==> (#[trigger] names()[j]) != name@,
        decreases ms@.len() - i,
    {
        proof {
            assert(listed(ms@)[i as int] == (ms@[i as int].name@, ms@[i as int].repo@, ms@[i as int].file@));
            assert(names()[i as int] == tested()[i as int].0);
        }
        if text::same(ms[i].name, name) {
            proof {
                assert(tested().contains(tested()[i as int]));
            }
            return Ok(Model { name: ms[i].name, repo: ms[i].repo, file: ms[i].file });
        }
        i += 1;
    }
    proof {
        assert(listed(ms@).len() == tested().len());
    }
    Err(unknown_model(schema::debug_of(name).as_str()))
}

/// What `str::to_lowercase` makes of a text.
pub uninterp spec fn lowercase(s: Seq<char>) -> Seq<char>;

/// `str::to_lowercase`: the lower-case equivalent of a text, by the Unicode
/// tables that std carries; which characters those change is not stated.
#[verifier::external_body]
fn lowered(s: &str) -> (r: String)
    ensures
        r@ == lowercase(s@),
{
    s.to_lowercase()
}

/// A text with hyphens for its spaces.
pub open spec fn hyphened(s: Seq<char>) -> Seq<char> {
    s.map_values(
        |c: char|
            if c == ' ' {
                '-'
            } else {
                c
            },
    )
}

/// The id of a model whose name, in lower case, is `name`: with its
/// quantisation, where it states one.
pub open spec fn id_text(name: Seq<char>, quant: Option<Seq<char>>) -> Seq<char> {
    "snap-"@ + hyphened(name) + match quant {
        Some(q) => "-"@ + q,
        None => ""@,
    }
}

fn hyphens(s: &str) -> (r: String)
    ensures
        r@ == hyphened(s@),
{
    let cs: Vec<char> = text::chars_of(s);
    let mut r: String = String::new();
    let mut i: usize = 0;
    while i < cs.len()
        invariant
            i <= cs@.len(),
            cs@ == s@,
            r@ =~= hyphened(s@).take(i as int),
        decreases cs@.len() - i,
    {
        r.push(
            if cs[i] == ' ' {
                '-'
            } else {
                cs[i]
            },
        );
        i += 1;
    }
    proof {
        assert(hyphened(s@).take(i as int) =~= hyphened(s@));
    }
    r
}

/// The id of a model, from its name in lower case.
pub fn id_of(name: &str, quant: Option<&str>) -> (r: String)
    ensures
        r@ == id_text(
            name@,
            match quant {
                Some(q) => Some(q@),
                None => None,
            },
        ),
{
    let id: String = "snap-".to_owned().concat(hyphens(name).as_str());
    match quant {
        Some(q) => id.concat("-").concat(q),
        None => {
            proof {
                reveal_strlit("");
                assert(id@ + ""@ =~= id@);
            }
            id
        },
    }
}

/// The id that a model's answers carry, from the name and the quantisation
/// that its file states.
pub fn model_id(name: &str, quant: Option<&str>) -> (r: String)
    ensures
        r@ == id_text(
            lowercase(name@),
            match quant {
                Some(q) => Some(q@),
                None => None,
            },
        ),
{
    id_of(lowered(name).as_str(), quant)
}

/// Names are distinct, so a name stands for one model; the default is tested.
pub proof fn law_one_model_each(i: int, j: int)
    requires
        0 <= i < names().len(),
        0 <= j < names().len(),
        names()[i] == names()[j],
    ensures
        i == j,
        names().contains(DEFAULT_MODEL@),
{
    reveal_strlit("minicpm5-2b");
    reveal_strlit("qwen3.8-4b");
    reveal_strlit("spark-4b");
    reveal_strlit("spark-4b-q4");
    assert(names()[0] == "minicpm5-2b"@ && names()[1] == "qwen3.8-4b"@ && names()[2] == "spark-4b"@ && names()[3]
        == "spark-4b-q4"@);
    assert(names()[0][0] == 'm' && names()[1][0] == 'q' && names()[2][0] == 's' && names()[3][0] == 's');
}

} // verus!
