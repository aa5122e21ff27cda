//! Actions taken by the user.

use vstd::prelude::*;

use crate::consequences::{opt_str_view, Consequence};
use crate::node::{Category, KnownCommnad, Node};
use crate::text::{chars_of, push_char, push_str, trim, trim_bounds};
use crate::text::{custom_summary, summarize_custom, summary_defined};

verus! {

/// An action taken by the user.
#[derive(Debug, Clone, Hash, PartialEq, Eq)]
pub enum Action {
    /// A custom action: any text the user wants to store.
    Custom(String),
    /// The execution of a command (its output is stored in another node).
    Command(String),
    KnownCommnad(KnownCommnad),
}

impl Action {
    /// Only custom actions have a summary, and only when it can be cut.
    pub open spec fn has_summary(&self) -> bool {
        match self {
            Action::Custom(c) => summary_defined(c@),
            _ => false,
        }
    }

    /// The summary of a custom action.
    pub open spec fn summary(&self) -> Seq<char> {
        match self {
            Action::Custom(c) => custom_summary(c@),
            _ => Seq::empty(),
        }
    }

    /// A one-line summary of a custom action (see `custom_summary`).
    pub fn to_string(&self) -> (r: String)
        requires
            self.has_summary(),
        ensures
            r@ == self.summary(),
    {
        match self {
            Action::Custom(content) => summarize_custom(content.as_str()),
            _ => String::new(),
        }
    }
}


/// Where the text of a custom node came from.
#[derive(Debug, Clone, Copy, PartialEq, Eq, Structural)]
pub enum CustomInput {
    /// Both the argument and the standard input hold text; they are joined.
    Both,
    Argument,
    Stdin,
    /// Neither holds text: no node is made.
    Neither,
}

/// The text has something besides white space.
pub open spec fn has_text(s: Seq<char>) -> bool {
    trim(s).len() > 0
}

/// Where the text of a custom node comes from.
pub open spec fn custom_input_of(content_arg: Option<Seq<char>>, stdin: Seq<char>) -> CustomInput {
    let arg = content_arg is Some && has_text(content_arg->0);
    let inp = has_text(stdin);
    if arg && inp {
        CustomInput::Both
    } else if arg {
        CustomInput::Argument
    } else if inp {
        CustomInput::Stdin
    } else {
        CustomInput::Neither
    }
}

/// The text of a custom node: the argument, followed by an empty line and
/// the standard input when both hold text; whichever holds text otherwise;
/// nothing when neither does.
pub open spec fn custom_content(content_arg: Option<Seq<char>>, stdin: Seq<char>) -> Seq<char> {
    match custom_input_of(content_arg, stdin) {
        CustomInput::Both => content_arg->0 + seq!['\n', '\n'] + stdin,
        CustomInput::Argument => content_arg->0,
        CustomInput::Stdin => stdin,
        CustomInput::Neither => Seq::empty(),
    }
}

/// Whether the text has something besides white space.
pub fn text_present(s: &str) -> (b: bool)
    ensures
        b == has_text(s@),
{
    let v = chars_of(s);
    let (lo, hi) = trim_bounds(&v);
    lo < hi
}

/// Where the text of a custom node comes from (see `custom_input_of`).
pub fn custom_input(content_arg: Option<&str>, stdin: &str) -> (k: CustomInput)
    ensures
        k == custom_input_of(opt_str_view(content_arg), stdin@),
{
    let arg = match content_arg {
        Some(a) => text_present(a),
        None => false,
    };
    let inp = text_present(stdin);
    if arg && inp {
        CustomInput::Both
    } else if arg {
        CustomInput::Argument
    } else if inp {
        CustomInput::Stdin
    } else {
        CustomInput::Neither
    }
}

/// The text of a custom action, consequence or event, from the text given
/// as argument and the standard input (see `custom_content`).
pub fn handle_general_custom(content_arg: Option<&str>, stdin: &str) -> (content: String)
    ensures
        content@ == custom_content(opt_str_view(content_arg), stdin@),
{
    match custom_input(content_arg, stdin) {
        CustomInput::Both => {
            let mut c = content_arg.unwrap().to_owned();
            push_str(&mut c, "\n\n");
            push_str(&mut c, stdin);
            proof {
                reveal_strlit("\n\n");
            }
            c
        },
        CustomInput::Argument => content_arg.unwrap().to_owned(),
        CustomInput::Stdin => stdin.to_owned(),
        CustomInput::Neither => String::new(),
    }
}

/// A custom action made of the text given as argument and/or through the
/// standard input; `None` when there is no text.
pub fn handle_subcommand_custom(content_arg: Option<&str>, stdin: &str) -> (node: Option<Node>)
    ensures
        custom_content(opt_str_view(content_arg), stdin@).len() == 0 ==> node is None,
        custom_content(opt_str_view(content_arg), stdin@).len() > 0 ==> {
            &&& node matches Some(n)
            &&& n.category matches Category::Action(Action::Custom(c))
            &&& c@ == custom_content(opt_str_view(content_arg), stdin@)
        },
{
    let contents = handle_general_custom(content_arg, stdin);
    if contents.as_str().is_empty() {
        None
    } else {
        Some(Node::new(Category::Action(Action::Custom(contents))))
    }
}


/// The words joined with single spaces.
pub open spec fn join_with_spaces(words: Seq<Seq<char>>) -> Seq<char>
    decreases words.len(),
{
    if words.len() == 0 {
        Seq::empty()
    } else if words.len() == 1 {
        words[0]
    } else {
        join_with_spaces(words.drop_last()) + seq![' '] + words.last()
    }
}

/// The number of characters of all the words together.
pub open spec fn total_len(words: Seq<Seq<char>>) -> nat
    decreases words.len(),
{
    if words.len() == 0 {
        0
    } else {
        total_len(words.drop_last()) + words.last().len()
    }
}

/// Where the word `k` starts when the words are written one after the
/// other with one character between each two.
pub open spec fn word_start(words: Seq<Seq<char>>, k: int) -> int {
    total_len(words.take(k)) + k
}

/// A prefix of the words has no more characters than all of them.
proof fn lemma_total_len_prefix(s: Seq<Seq<char>>, k: int)
    requires
        0 <= k <= s.len(),
    ensures
        total_len(s.take(k)) <= total_len(s),
    decreases s.len(),
{
    if k < s.len() {
        assert(s.drop_last().take(k) == s.take(k));
        lemma_total_len_prefix(s.drop_last(), k);
    } else {
        assert(s.take(k) == s);
    }
}

/// One more word adds its characters.
proof fn lemma_total_len_step(s: Seq<Seq<char>>, k: int)
    requires
        0 <= k < s.len(),
    ensures
        total_len(s.take(k + 1)) == total_len(s.take(k)) + s[k].len(),
{
    assert(s.take(k + 1).drop_last() == s.take(k));
}

/// Words joined with spaces: the text is as long as the words and one
/// space between each two; each word stands at its place, in order, and a
/// space stands between each two words. A single word is the text itself.
pub proof fn law_join_with_spaces(words: Seq<Seq<char>>)
    ensures
        words.len() > 0 ==> join_with_spaces(words).len() == total_len(words) + words.len() - 1,
        words.len() == 1 ==> join_with_spaces(words) == words[0],
        forall|k: int|
            0 <= k < words.len() ==> join_with_spaces(words).subrange(
                word_start(words, k),
                word_start(words, k) + words[k].len(),
            ) == #[trigger] words[k],
        forall|k: int| 1 <= k < words.len() ==> join_with_spaces(words)[#[trigger] word_start(words, k) - 1] == ' ',
    decreases words.len(),
{
    let n = words.len();
    if n == 1 {
        assert(words.take(0) == Seq::<Seq<char>>::empty());
        assert(words.drop_last() == Seq::<Seq<char>>::empty());
        assert(words[0].subrange(0, words[0].len() as int) == words[0]);
    } else if n >= 2 {
        let init = words.drop_last();
        law_join_with_spaces(init);
        let j = join_with_spaces(init);
        let t = join_with_spaces(words);
        assert(t == j + seq![' '] + words.last());
        assert forall|k: int| 0 <= k < n implies t.subrange(word_start(words, k), word_start(words, k)
            + words[k].len()) == #[trigger] words[k] by {
            if k < n - 1 {
                assert(words.take(k) == init.take(k));
                assert(words[k] == init[k]);
                lemma_total_len_step(init, k);
                lemma_total_len_prefix(init, k + 1);
                let a = word_start(words, k);
                assert(a + words[k].len() <= j.len());
                assert(t.subrange(a, a + words[k].len()) == j.subrange(a, a + words[k].len()));
            } else {
                assert(words.take(k) == init);
                let a: int = (j.len() + 1) as int;
                let b: int = a + words.last().len() as int;
                assert(t.subrange(a, b) == words.last());
            }
        }
        assert forall|k: int| 1 <= k < n implies t[#[trigger] word_start(words, k) - 1] == ' ' by {
            if k < n - 1 {
                assert(words.take(k) == init.take(k));
                lemma_total_len_step(init, k);
                lemma_total_len_prefix(init, k + 1);
                assert(word_start(words, k) == word_start(init, k));
                assert(t[word_start(words, k) - 1] == j[word_start(init, k) - 1]);
            } else {
                assert(words.take(k) == init);
            }
        }
    }
}

/// The views of the strings.
pub open spec fn strings_view(v: Seq<String>) -> Seq<Seq<char>> {
    v.map_values(|s: String| s@)
}

/// The command line made of the arguments: joined with single spaces.
pub fn command_line(args: &Vec<String>) -> (line: String)
    ensures
        line@ == join_with_spaces(strings_view(args@)),
        args@.len() == 1 ==> line@ == args@[0]@,
        args@.len() > 0 ==> line@.len() == total_len(strings_view(args@)) + args@.len() - 1,
{
    proof {
        law_join_with_spaces(strings_view(args@));
    }
    let mut line = String::new();
    let mut i: usize = 0;
    while i < args.len()
        invariant
            i <= args.len(),
            line@ == join_with_spaces(strings_view(args@).take(i as int)),
        decreases args.len() - i,
    {
        let ghost words = strings_view(args@);
        assert(words.take(i + 1).drop_last() == words.take(i as int));
        if i > 0 {
            push_char(&mut line, ' ');
        }
        push_str(&mut line, args[i].as_str());
        assert(words[i as int] == args@[i as int]@);
        i += 1;
    }
    assert(strings_view(args@).take(args.len() as int) == strings_view(args@));
    line
}

/// The nodes that record the execution of a command: the action (the
/// command line) and its consequence (what the command wrote to its output
/// and error streams).
pub fn command_nodes(command: &str, output: &str, error: &str) -> (nodes: (Node, Node))
    ensures
        nodes.0.category matches Category::Action(Action::Command(c)) && c@ == command@,
        nodes.1.category matches Category::Consequence(Consequence::Command(o, e)) && o@ == output@
            && e@ == error@,
{
    let action = Node::new(Category::Action(Action::Command(command.to_owned())));
    let consequence = Node::new(
        Category::Consequence(Consequence::Command(output.to_owned(), error.to_owned())),
    );
    (action, consequence)
}

/// Which streams of a failed command are shown, as (error, output): both
/// when both are blank, otherwise the error stream when it is blank, and the
/// output stream when it is not.
pub fn command_failure_streams(error: &str, output: &str) -> (shown: (bool, bool))
    ensures
        !has_text(error@) && !has_text(output@) ==> shown == (true, true),
        !has_text(error@) && has_text(output@) ==> shown == (true, false),
        has_text(error@) ==> shown == (false, true),
{
    let empty_e = !text_present(error);
    let empty_out = !text_present(output);
    if empty_e && empty_out {
        (true, true)
    } else if empty_e {
        (true, false)
    } else {
        (false, true)
    }
}

} // verus!
