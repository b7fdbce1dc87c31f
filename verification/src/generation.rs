//! Text generation from a query and retrieved context: the mock generator,
//! prompt templates, and the choice of generator.

use vstd::prelude::*;
use crate::chunking::Chunk;
use crate::text::{decimal, join, lemma_join_push, occurs_at, contains_seq, lemma_occurs_extend_right, lemma_occurs_extend_left, lemma_occurs_self, words, split_words, chars_of, push_char, push_decimal, push_str, lemma_words_len};

verus! {

/// Available LLM providers.
#[derive(Debug)]
pub enum LLMProvider {
    /// OpenAI API
    OpenAI { api_key: String, model_name: String },
    /// Anthropic API
    Anthropic { api_key: String, model_name: String },
    /// Local model served by Ollama
    Ollama { host: String, model_name: String },
    /// Mock provider for testing
    Mock,
}

/// How a provider names itself: `"OpenAI (model)"`, `"Anthropic (model)"`,
/// `"Ollama (model)"` or `"Mock LLM"`.
pub open spec fn llm_description(p: LLMProvider) -> Seq<char> {
    match p {
        LLMProvider::OpenAI { model_name, .. } => "OpenAI ("@ + model_name@ + seq![')'],
        LLMProvider::Anthropic { model_name, .. } => "Anthropic ("@ + model_name@ + seq![')'],
        LLMProvider::Ollama { model_name, .. } => "Ollama ("@ + model_name@ + seq![')'],
        LLMProvider::Mock => "Mock LLM"@,
    }
}

impl LLMProvider {
    /// The provider's display text.
    pub fn describe(&self) -> (s: String)
        ensures
            s@ == llm_description(*self),
    {
        let mut s = String::new();
        match self {
            LLMProvider::OpenAI { model_name, .. } => {
                push_str(&mut s, "OpenAI (");
                push_str(&mut s, model_name.as_str());
                push_char(&mut s, ')');
            },
            LLMProvider::Anthropic { model_name, .. } => {
                push_str(&mut s, "Anthropic (");
                push_str(&mut s, model_name.as_str());
                push_char(&mut s, ')');
            },
            LLMProvider::Ollama { model_name, .. } => {
                push_str(&mut s, "Ollama (");
                push_str(&mut s, model_name.as_str());
                push_char(&mut s, ')');
            },
            LLMProvider::Mock => {
                push_str(&mut s, "Mock LLM");
            },
        }
        s
    }
}

/// The contents of the context chunks.
pub open spec fn contents_of(contexts: Seq<Chunk>) -> Seq<Seq<char>> {
    Seq::new(contexts.len(), |i: int| contexts[i].content@)
}

/// The contents as a bullet list: `"- c0\n- c1\n..."`.
pub open spec fn bullet_list(contents: Seq<Seq<char>>) -> Seq<char>
    decreases contents.len(),
{
    if contents.len() == 0 {
        seq![]
    } else if contents.len() == 1 {
        "- "@ + contents[0]
    } else {
        bullet_list(contents.drop_last()) + seq!['\n'] + "- "@ + contents.last()
    }
}

/// The response of the mock generator.
pub open spec fn mock_response(query: Seq<char>, contents: Seq<Seq<char>>) -> Seq<char> {
    "Query: "@ + query + "\n\nResponse: "@ + if contents.len() == 0 {
        "No relevant information found for this query."@
    } else {
        "Based on the retrieved information, I can provide the following answer:\n\n"@
            + bullet_list(contents)
    }
}

/// What the mock generator produces.
#[derive(Debug)]
pub struct MockGeneration {
    /// The generated text
    pub response: String,
    /// The model used for generation
    pub model: String,
    /// Tokens used: the words of the query plus the words of the response
    pub tokens_used: usize,
    /// The contexts the response was built from, when sources were asked for
    pub context: Option<Vec<Chunk>>,
}

/// The name of the mock model.
pub open spec fn mock_llm_name() -> Seq<char> {
    "mock-llm-model"@
}

/// A mock text generator for testing.
pub struct MockTextGenerator {
    model_name: String,
}

impl View for MockTextGenerator {
    type V = Seq<char>;

    /// The model name.
    closed spec fn view(&self) -> Seq<char> {
        self.model_name@
    }
}

impl MockTextGenerator {
    /// Creates a mock text generator.
    pub fn new() -> (g: MockTextGenerator)
        ensures
            g@ == mock_llm_name(),
    {
        let mut model_name = String::new();
        push_str(&mut model_name, "mock-llm-model");
        MockTextGenerator { model_name }
    }

    /// The model name used by this generator.
    pub fn model_name(&self) -> (s: &str)
        ensures
            s@ == self@,
    {
        self.model_name.as_str()
    }

    /// Answers `query` by echoing it and listing the contents of `contexts`.
    pub fn generate(&self, query: &str, contexts: &Vec<Chunk>, include_sources: bool) -> (g:
        MockGeneration)
        ensures
            g.response@ == mock_response(query@, contents_of(contexts@)),
            g.model@ == self@,
            g.tokens_used == words(query@).len() + words(g.response@).len(),
            include_sources ==> (g.context matches Some(v) && v@.len() == contexts@.len() && forall|i: int|
                0 <= i < v@.len() ==> (#[trigger] v@[i])@ == contexts@[i]@),
            !include_sources ==> g.context is None,
    {
        let mut response = String::new();
        push_str(&mut response, "Query: ");
        push_str(&mut response, query);
        push_str(&mut response, "\n\nResponse: ");
        let ghost head = response@;
        if contexts.len() == 0 {
            push_str(&mut response, "No relevant information found for this query.");
        } else {
            push_str(
                &mut response,
                "Based on the retrieved information, I can provide the following answer:\n\n",
            );
            let ghost mid = response@;
            let mut i: usize = 0;
            while i < contexts.len()
                invariant
                    i <= contexts@.len(),
                    contexts@.len() > 0,
                    response@ == mid + bullet_list(contents_of(contexts@).subrange(0, i as int)),
                decreases contexts@.len() - i,
            {
                let ghost before = contents_of(contexts@).subrange(0, i as int);
                let ghost after = contents_of(contexts@).subrange(0, i + 1);
                assert(after.drop_last() =~= before);
                if i > 0 {
                    push_char(&mut response, '\n');
                }
                push_str(&mut response, "- ");
                push_str(&mut response, contexts[i].content.as_str());
                proof {
                    if i == 0 {
                        assert(bullet_list(after) == "- "@ + after[0]);
                        assert(response@ =~= mid + bullet_list(after));
                    } else {
                        assert(response@ =~= mid + bullet_list(after));
                    }
                }
                i = i + 1;
            }
            assert(contents_of(contexts@).subrange(0, contexts@.len() as int) =~= contents_of(contexts@));
        }
        assert(response@ =~= mock_response(query@, contents_of(contexts@)));
        let qw = split_words(query);
        let rw = split_words(response.as_str());
        let rc = chars_of(response.as_str());
        let rn = rc.len();
        proof {
            reveal_strlit("Query: ");
            lemma_words_len(query@);
            lemma_words_len(response@);
            assert(response@.len() >= query@.len() + 7);
            assert(rn == response@.len());
        }
        let tokens_used = qw.len() + rw.len();
        let context = if include_sources {
            Some(clone_chunks(contexts))
        } else {
            None
        };
        MockGeneration { response, model: self.model_name.clone(), tokens_used, context }
    }
}

/// A copy of each chunk, in order.
fn clone_chunks(v: &Vec<Chunk>) -> (r: Vec<Chunk>)
    ensures
        r@.len() == v@.len(),
        forall|i: int| 0 <= i < r@.len() ==> (#[trigger] r@[i])@ == v@[i]@,
{
    let mut r: Vec<Chunk> = Vec::new();
    let mut i: usize = 0;
    while i < v.len()
        invariant
            i <= v@.len(),
            r@.len() == i,
            forall|k: int| 0 <= k < i ==> (#[trigger] r@[k])@ == v@[k]@,
        decreases v@.len() - i,
    {
        r.push(v[i].clone());
        i = i + 1;
    }
    r
}

impl Default for MockTextGenerator {
    fn default() -> (g: MockTextGenerator)
        ensures
            g@ == mock_llm_name(),
    {
        MockTextGenerator::new()
    }
}

/// Why no text generator could be made.
#[derive(Debug, Clone, Copy, PartialEq, Eq)]
pub enum GenerationError {
    /// The configured provider has no implementation yet.
    ProviderNotImplemented,
}

/// Makes the text generator that `provider` names: the mock provider is the
/// only one implemented.
pub fn create_text_generator(provider: &LLMProvider) -> (r: Result<MockTextGenerator, GenerationError>)
    ensures
        match *provider {
            LLMProvider::Mock => r matches Ok(g) && g@ == mock_llm_name(),
            _ => r matches Err(e) && e == GenerationError::ProviderNotImplemented,
        },
{
    match provider {
        LLMProvider::Mock => Ok(MockTextGenerator::new()),
        _ => Err(GenerationError::ProviderNotImplemented),
    }
}


/// The numbered context blocks: `"--- Context {i} ---\n{content}\n\n"` for each content.
pub open spec fn context_blocks(contents: Seq<Seq<char>>) -> Seq<char>
    decreases contents.len(),
{
    if contents.len() == 0 {
        seq![]
    } else {
        context_blocks(contents.drop_last()) + "--- Context "@ + decimal((contents.len() - 1) as nat)
            + " ---\n"@ + contents.last() + "\n\n"@
    }
}

/// The default retrieval-augmented prompt for `query` over `contents`.
pub open spec fn rag_prompt(query: Seq<char>, contents: Seq<Seq<char>>) -> Seq<char> {
    (if contents.len() > 0 {
        "You are an AI assistant answering a question based on the provided context information below.\n"@
            + "Context information:\n"@ + context_blocks(contents)
            + "Instructions: Based solely on the context provided above, answer the following query. If the context doesn't contain relevant information, say 'I don't have enough information to answer this question.'\n\n"@
    } else {
        "You are an AI assistant answering a question. No specific context information is provided.\n\n"@
    }) + "Query: "@ + query + "\n\nAnswer:"@
}

/// Prompt templates.
pub struct PromptTemplates;

impl PromptTemplates {
    /// The default retrieval-augmented prompt: an instruction, the numbered
    /// context blocks (when there is context), then the query.
    pub fn default_rag_template(query: &str, contexts: &Vec<Chunk>) -> (prompt: String)
        ensures
            prompt@ == rag_prompt(query@, contents_of(contexts@)),
    {
        let mut prompt = String::new();
        if contexts.len() > 0 {
            push_str(
                &mut prompt,
                "You are an AI assistant answering a question based on the provided context information below.\n",
            );
            push_str(&mut prompt, "Context information:\n");
            let ghost mid = prompt@;
            let mut i: usize = 0;
            while i < contexts.len()
                invariant
                    i <= contexts@.len(),
                    prompt@ == mid + context_blocks(contents_of(contexts@).subrange(0, i as int)),
                decreases contexts@.len() - i,
            {
                let ghost before = contents_of(contexts@).subrange(0, i as int);
                let ghost after = contents_of(contexts@).subrange(0, i + 1);
                assert(after.drop_last() =~= before);
                push_str(&mut prompt, "--- Context ");
                push_decimal(&mut prompt, i);
                push_str(&mut prompt, " ---\n");
                push_str(&mut prompt, contexts[i].content.as_str());
                push_str(&mut prompt, "\n\n");
                assert(prompt@ =~= mid + context_blocks(after));
                i = i + 1;
            }
            assert(contents_of(contexts@).subrange(0, contexts@.len() as int) =~= contents_of(contexts@));
            push_str(
                &mut prompt,
                "Instructions: Based solely on the context provided above, answer the following query. If the context doesn't contain relevant information, say 'I don't have enough information to answer this question.'\n\n",
            );
        } else {
            push_str(
                &mut prompt,
                "You are an AI assistant answering a question. No specific context information is provided.\n\n",
            );
        }
        push_str(&mut prompt, "Query: ");
        push_str(&mut prompt, query);
        push_str(&mut prompt, "\n\nAnswer:");
        assert(prompt@ =~= rag_prompt(query@, contents_of(contexts@)));
        prompt
    }
}


/// Each content occurs in the bullet list.
proof fn lemma_bullets_mention(contents: Seq<Seq<char>>)
    ensures
        forall|i: int| 0 <= i < contents.len() ==> contains_seq(bullet_list(contents), #[trigger] contents[i]),
    decreases contents.len(),
{
    if contents.len() > 0 {
        let prev = contents.drop_last();
        lemma_bullets_mention(prev);
        let last = contents.last();
        assert forall|i: int| 0 <= i < contents.len() implies contains_seq(bullet_list(contents), #[trigger] contents[i]) by {
            if contents.len() == 1 {
                lemma_occurs_self(last);
                lemma_occurs_extend_left("- "@, last, last, 0);
                assert(occurs_at(bullet_list(contents), contents[i], "- "@.len() as int));
            } else if i < contents.len() - 1 {
                assert(contents[i] == prev[i]);
                assert(contains_seq(bullet_list(prev), prev[i]));
                let j = choose|j: int| occurs_at(bullet_list(prev), prev[i], j);
                lemma_occurs_extend_right(bullet_list(prev), seq!['\n'] + "- "@ + last, prev[i], j);
                assert(bullet_list(prev) + (seq!['\n'] + "- "@ + last) =~= bullet_list(contents));
                assert(occurs_at(bullet_list(contents), contents[i], j));
            } else {
                let head = bullet_list(prev) + seq!['\n'] + "- "@;
                lemma_occurs_self(last);
                lemma_occurs_extend_left(head, last, last, 0);
                assert(head + last =~= bullet_list(contents));
                assert(occurs_at(bullet_list(contents), contents[i], head.len() as int));
            }
        }
    }
}

/// The mock response repeats the query and, when there is context, every context's content.
pub proof fn lemma_mock_response_mentions(query: Seq<char>, contents: Seq<Seq<char>>)
    ensures
        contains_seq(mock_response(query, contents), query),
        forall|i: int| 0 <= i < contents.len() ==> contains_seq(mock_response(query, contents), #[trigger] contents[i]),
{
    let head = "Query: "@;
    let tail = "\n\nResponse: "@ + if contents.len() == 0 {
        "No relevant information found for this query."@
    } else {
        "Based on the retrieved information, I can provide the following answer:\n\n"@
            + bullet_list(contents)
    };
    assert(mock_response(query, contents) =~= (head + query) + tail);
    lemma_occurs_self(query);
    lemma_occurs_extend_left(head, query, query, 0);
    lemma_occurs_extend_right(head + query, tail, query, head.len() as int);
    assert(occurs_at(mock_response(query, contents), query, head.len() as int));
    lemma_bullets_mention(contents);
    assert forall|i: int| 0 <= i < contents.len() implies contains_seq(mock_response(query, contents), #[trigger] contents[i]) by {
        let j = choose|j: int| occurs_at(bullet_list(contents), contents[i], j);
        let front = head + query + "\n\nResponse: "@ + "Based on the retrieved information, I can provide the following answer:\n\n"@;
        lemma_occurs_extend_left(front, bullet_list(contents), contents[i], j);
        assert(front + bullet_list(contents) =~= mock_response(query, contents));
        assert(occurs_at(mock_response(query, contents), contents[i], j + front.len()));
    }
}

/// Each content occurs in the context blocks.
proof fn lemma_blocks_mention(contents: Seq<Seq<char>>)
    ensures
        forall|i: int| 0 <= i < contents.len() ==> contains_seq(context_blocks(contents), #[trigger] contents[i]),
    decreases contents.len(),
{
    if contents.len() > 0 {
        let prev = contents.drop_last();
        lemma_blocks_mention(prev);
        let last = contents.last();
        let head = context_blocks(prev) + "--- Context "@ + decimal((contents.len() - 1) as nat) + " ---\n"@;
        let tail = "\n\n"@;
        assert(context_blocks(contents) =~= head + last + tail);
        assert forall|i: int| 0 <= i < contents.len() implies contains_seq(context_blocks(contents), #[trigger] contents[i]) by {
            if i < contents.len() - 1 {
                assert(contents[i] == prev[i]);
                let j = choose|j: int| occurs_at(context_blocks(prev), prev[i], j);
                let rest = "--- Context "@ + decimal((contents.len() - 1) as nat) + " ---\n"@ + last + tail;
                lemma_occurs_extend_right(context_blocks(prev), rest, prev[i], j);
                assert(context_blocks(prev) + rest =~= context_blocks(contents));
                assert(occurs_at(context_blocks(contents), contents[i], j));
            } else {
                lemma_occurs_self(last);
                lemma_occurs_extend_left(head, last, last, 0);
                lemma_occurs_extend_right(head + last, tail, last, head.len() as int);
                assert(occurs_at(context_blocks(contents), contents[i], head.len() as int));
            }
        }
    }
}

/// The `i`-th context block of a prompt, holding `content`:
/// `"--- Context {i} ---\n{content}\n\n"`.
pub open spec fn context_block(i: nat, content: Seq<char>) -> Seq<char> {
    "--- Context "@ + decimal(i) + " ---\n"@ + content + "\n\n"@
}

/// The total length of the first `k` context blocks.
pub open spec fn blocks_len(contents: Seq<Seq<char>>, k: int) -> int
    decreases k,
{
    if k <= 0 {
        0
    } else {
        blocks_len(contents, k - 1) + context_block((k - 1) as nat, contents[k - 1]).len()
    }
}

/// The blocks of the first `k + 1` contents are those of the first `k`, then block `k`.
proof fn lemma_blocks_step(contents: Seq<Seq<char>>, k: int)
    requires
        0 <= k < contents.len(),
    ensures
        context_blocks(contents.subrange(0, k + 1)) == context_blocks(contents.subrange(0, k))
            + context_block(k as nat, contents[k]),
{
    let a = contents.subrange(0, k + 1);
    assert(a.drop_last() =~= contents.subrange(0, k));
    assert(a.last() == contents[k]);
    assert(context_blocks(a) =~= context_blocks(contents.subrange(0, k)) + context_block(k as nat, contents[k]));
}

/// The blocks of the first `k` contents take `blocks_len(contents, k)` characters.
proof fn lemma_blocks_prefix_len(contents: Seq<Seq<char>>, k: int)
    requires
        0 <= k <= contents.len(),
    ensures
        context_blocks(contents.subrange(0, k)).len() == blocks_len(contents, k),
    decreases k,
{
    if k == 0 {
        assert(contents.subrange(0, 0) =~= Seq::<Seq<char>>::empty());
    } else {
        lemma_blocks_prefix_len(contents, k - 1);
        lemma_blocks_step(contents, k - 1);
    }
}

/// The blocks of the first `k` contents begin the blocks of all of them.
proof fn lemma_blocks_prefix(contents: Seq<Seq<char>>, k: int, n: int)
    requires
        0 <= k <= n <= contents.len(),
    ensures
        context_blocks(contents.subrange(0, k)).len() <= context_blocks(contents.subrange(0, n)).len(),
        context_blocks(contents.subrange(0, n)).subrange(0, context_blocks(contents.subrange(0, k)).len() as int)
            == context_blocks(contents.subrange(0, k)),
    decreases n - k,
{
    let pk = context_blocks(contents.subrange(0, k));
    if k == n {
        assert(context_blocks(contents.subrange(0, n)).subrange(0, pk.len() as int) =~= pk);
    } else {
        lemma_blocks_prefix(contents, k + 1, n);
        lemma_blocks_step(contents, k);
        let pk1 = context_blocks(contents.subrange(0, k + 1));
        let pn = context_blocks(contents.subrange(0, n));
        assert(pn.subrange(0, pk1.len() as int) == pk1);
        assert(pn.subrange(0, pk.len() as int) =~= pk1.subrange(0, pk.len() as int));
        assert(pk1.subrange(0, pk.len() as int) =~= pk);
    }
}

/// Block positions grow with the index: block `i` ends before block `j` starts.
proof fn lemma_blocks_len_order(contents: Seq<Seq<char>>, i: int, j: int)
    requires
        0 <= i < j,
    ensures
        blocks_len(contents, i) + context_block(i as nat, contents[i]).len() <= blocks_len(contents, j),
    decreases j - i,
{
    if j > i + 1 {
        lemma_blocks_len_order(contents, i, j - 1);
    }
}

/// The opening of a prompt with context, before its blocks.
pub open spec fn rag_intro() -> Seq<char> {
    "You are an AI assistant answering a question based on the provided context information below.\n"@
        + "Context information:\n"@
}

/// The default prompt lists the contexts in their given order: block `i`
/// reads `"--- Context {i} ---\n"`, then the `i`-th content, then a blank
/// line; it starts right after the opening and the blocks before it, so
/// block `i` ends before block `j` starts whenever `i < j`.
pub proof fn lemma_rag_prompt_blocks_in_order(query: Seq<char>, contents: Seq<Seq<char>>)
    ensures
        forall|i: int|
            0 <= i < contents.len() ==> occurs_at(
                rag_prompt(query, contents),
                #[trigger] context_block(i as nat, contents[i]),
                rag_intro().len() + blocks_len(contents, i),
            ),
        forall|i: int, j: int|
            0 <= i < j < contents.len() ==> #[trigger] blocks_len(contents, i) + context_block(i as nat, contents[i]).len()
                <= #[trigger] blocks_len(contents, j),
{
    let n = contents.len() as int;
    assert(contents.subrange(0, n) =~= contents);
    assert forall|i: int| 0 <= i < contents.len() implies occurs_at(
        rag_prompt(query, contents),
        #[trigger] context_block(i as nat, contents[i]),
        rag_intro().len() + blocks_len(contents, i),
    ) by {
        let b = context_block(i as nat, contents[i]);
        let pi = context_blocks(contents.subrange(0, i));
        let pi1 = context_blocks(contents.subrange(0, i + 1));
        lemma_blocks_step(contents, i);
        lemma_blocks_prefix_len(contents, i);
        lemma_blocks_prefix(contents, i + 1, n);
        let all = context_blocks(contents);
        assert(context_blocks(contents.subrange(0, n)) == all);
        assert(all.subrange(0, pi1.len() as int) == pi1);
        assert(all.subrange(pi.len() as int, (pi.len() + b.len()) as int) =~= pi1.subrange(pi.len() as int, pi1.len() as int));
        assert(pi1.subrange(pi.len() as int, pi1.len() as int) =~= b);
        assert(occurs_at(all, b, pi.len() as int));
        let back = "Instructions: Based solely on the context provided above, answer the following query. If the context doesn't contain relevant information, say 'I don't have enough information to answer this question.'\n\n"@
            + "Query: "@ + query + "\n\nAnswer:"@;
        lemma_occurs_extend_left(rag_intro(), all, b, pi.len() as int);
        lemma_occurs_extend_right(rag_intro() + all, back, b, (pi.len() + rag_intro().len()) as int);
        assert(rag_intro() + all + back =~= rag_prompt(query, contents));
    }
    assert forall|i: int, j: int| 0 <= i < j < contents.len() implies #[trigger] blocks_len(contents, i)
        + context_block(i as nat, contents[i]).len() <= #[trigger] blocks_len(contents, j) by {
        lemma_blocks_len_order(contents, i, j);
    }
}

/// The default prompt ends with `"Query: {query}\n\nAnswer:"` and holds every
/// context's content.
pub proof fn lemma_rag_prompt_mentions(query: Seq<char>, contents: Seq<Seq<char>>)
    ensures
        contains_seq(rag_prompt(query, contents), "Query: "@ + query),
        forall|i: int| 0 <= i < contents.len() ==> contains_seq(rag_prompt(query, contents), #[trigger] contents[i]),
{
    let intro = if contents.len() > 0 {
        "You are an AI assistant answering a question based on the provided context information below.\n"@
            + "Context information:\n"@ + context_blocks(contents)
            + "Instructions: Based solely on the context provided above, answer the following query. If the context doesn't contain relevant information, say 'I don't have enough information to answer this question.'\n\n"@
    } else {
        "You are an AI assistant answering a question. No specific context information is provided.\n\n"@
    };
    let q = "Query: "@ + query;
    let tail = "\n\nAnswer:"@;
    assert(rag_prompt(query, contents) =~= intro + q + tail);
    lemma_occurs_self(q);
    lemma_occurs_extend_left(intro, q, q, 0);
    lemma_occurs_extend_right(intro + q, tail, q, intro.len() as int);
    assert(occurs_at(rag_prompt(query, contents), q, intro.len() as int));
    lemma_blocks_mention(contents);
    assert forall|i: int| 0 <= i < contents.len() implies contains_seq(rag_prompt(query, contents), #[trigger] contents[i]) by {
        let j = choose|j: int| occurs_at(context_blocks(contents), contents[i], j);
        let front = "You are an AI assistant answering a question based on the provided context information below.\n"@
            + "Context information:\n"@;
        let back = "Instructions: Based solely on the context provided above, answer the following query. If the context doesn't contain relevant information, say 'I don't have enough information to answer this question.'\n\n"@ + q + tail;
        lemma_occurs_extend_left(front, context_blocks(contents), contents[i], j);
        lemma_occurs_extend_right(front + context_blocks(contents), back, contents[i], j + front.len());
        assert(front + context_blocks(contents) + back =~= rag_prompt(query, contents));
        assert(occurs_at(rag_prompt(query, contents), contents[i], j + front.len()));
    }
}


/// A chat message: who speaks, and what.
#[derive(Debug)]
pub struct ChatMessage {
    pub role: String,
    pub content: String,
}

/// The context blocks of the chat template: `"--- Context {i} ---\n{content}"`.
pub open spec fn chat_blocks(contents: Seq<Seq<char>>) -> Seq<Seq<char>> {
    Seq::new(contents.len(), |i: int| "--- Context "@ + decimal(i as nat) + " ---\n"@ + contents[i])
}

/// The text of the message that hands the model its context.
pub open spec fn chat_context_message(contents: Seq<Seq<char>>) -> Seq<char> {
    "Here is context information to help answer a question:\n\n"@ + join(chat_blocks(contents), "\n\n"@)
        + "\n\nUse this context to answer my next question. Only use the provided information."@
}

/// The chat messages of the OpenAI template, as (role, content) pairs: a
/// system message, then (with context) the context and the assistant's
/// acknowledgement, then the query.
pub open spec fn chat_messages(query: Seq<char>, contents: Seq<Seq<char>>) -> Seq<(Seq<char>, Seq<char>)> {
    seq![("system"@, "You are a helpful assistant answering questions based on provided context information."@)]
        + if contents.len() > 0 {
        seq![
            ("user"@, chat_context_message(contents)),
            ("assistant"@, "I'll answer your question based on the context you've provided."@),
        ]
    } else {
        seq![]
    } + seq![("user"@, query)]
}

/// The prompt of the OpenAI completion generator: the numbered contexts
/// `"[{i}] {content}\n\n"` under a heading and an instruction, then the query.
pub open spec fn completion_prompt(query: Seq<char>, contents: Seq<Seq<char>>) -> Seq<char> {
    (if contents.len() > 0 {
        "Context information:\n"@ + completion_blocks(contents)
            + "\nGiven the context information and not prior knowledge, answer the query.\n\n"@
    } else {
        seq![]
    }) + "Query: "@ + query + "\n\nAnswer:"@
}

/// `"[{i}] {content}\n\n"` for each content.
pub open spec fn completion_blocks(contents: Seq<Seq<char>>) -> Seq<char>
    decreases contents.len(),
{
    if contents.len() == 0 {
        seq![]
    } else {
        completion_blocks(contents.drop_last()) + "["@ + decimal((contents.len() - 1) as nat) + "] "@
            + contents.last() + "\n\n"@
    }
}

/// A message with the given role and content.
fn message(role: &str, content: String) -> (m: ChatMessage)
    ensures
        m.role@ == role@,
        m.content@ == content@,
{
    ChatMessage { role: crate::text::string_from(role), content }
}

impl PromptTemplates {
    /// The chat messages of the OpenAI template.
    pub fn openai_messages(query: &str, contexts: &Vec<Chunk>) -> (msgs: Vec<ChatMessage>)
        ensures
            msgs@.len() == chat_messages(query@, contents_of(contexts@)).len(),
            forall|i: int|
                0 <= i < msgs@.len() ==> (#[trigger] msgs@[i]).role@ == chat_messages(
                    query@,
                    contents_of(contexts@),
                )[i].0 && msgs@[i].content@ == chat_messages(query@, contents_of(contexts@))[i].1,
    {
        let ghost expected = chat_messages(query@, contents_of(contexts@));
        let mut msgs: Vec<ChatMessage> = Vec::new();
        msgs.push(
            message(
                "system",
                crate::text::string_from(
                    "You are a helpful assistant answering questions based on provided context information.",
                ),
            ),
        );
        if contexts.len() > 0 {
            let ghost blocks = chat_blocks(contents_of(contexts@));
            let mut ctx = String::new();
            let mut i: usize = 0;
            while i < contexts.len()
                invariant
                    i <= contexts@.len(),
                    blocks == chat_blocks(contents_of(contexts@)),
                    i > 0 ==> ctx@ == join(blocks.subrange(0, i as int), "\n\n"@),
                    i == 0 ==> ctx@ == Seq::<char>::empty(),
                decreases contexts@.len() - i,
            {
                let ghost before = blocks.subrange(0, i as int);
                if i > 0 {
                    push_str(&mut ctx, "\n\n");
                }
                push_str(&mut ctx, "--- Context ");
                push_decimal(&mut ctx, i);
                push_str(&mut ctx, " ---\n");
                push_str(&mut ctx, contexts[i].content.as_str());
                proof {
                    let after = blocks.subrange(0, i + 1);
                    assert(after =~= before.push(blocks[i as int]));
                    if i > 0 {
                        lemma_join_push(before, "\n\n"@, blocks[i as int]);
                    } else {
                        assert(after =~= seq![blocks[0]]);
                    }
                    assert(ctx@ =~= join(after, "\n\n"@));
                }
                i = i + 1;
            }
            assert(blocks.subrange(0, contexts@.len() as int) =~= blocks);
            let mut content = String::new();
            push_str(&mut content, "Here is context information to help answer a question:\n\n");
            push_str(&mut content, ctx.as_str());
            push_str(
                &mut content,
                "\n\nUse this context to answer my next question. Only use the provided information.",
            );
            msgs.push(message("user", content));
            msgs.push(
                message(
                    "assistant",
                    crate::text::string_from("I'll answer your question based on the context you've provided."),
                ),
            );
        }
        msgs.push(message("user", crate::text::string_from(query)));
        assert forall|i: int|
            0 <= i < msgs@.len() implies (#[trigger] msgs@[i]).role@ == expected[i].0 && msgs@[i].content@ == expected[i].1 by {
        }
        msgs
    }

    /// The prompt of the OpenAI completion generator.
    pub fn completion_prompt(query: &str, contexts: &Vec<Chunk>) -> (prompt: String)
        ensures
            prompt@ == completion_prompt(query@, contents_of(contexts@)),
    {
        let mut prompt = String::new();
        if contexts.len() > 0 {
            push_str(&mut prompt, "Context information:\n");
            let ghost mid = prompt@;
            let mut i: usize = 0;
            while i < contexts.len()
                invariant
                    i <= contexts@.len(),
                    prompt@ == mid + completion_blocks(contents_of(contexts@).subrange(0, i as int)),
                decreases contexts@.len() - i,
            {
                let ghost before = contents_of(contexts@).subrange(0, i as int);
                let ghost after = contents_of(contexts@).subrange(0, i + 1);
                assert(after.drop_last() =~= before);
                push_str(&mut prompt, "[");
                push_decimal(&mut prompt, i);
                push_str(&mut prompt, "] ");
                push_str(&mut prompt, contexts[i].content.as_str());
                push_str(&mut prompt, "\n\n");
                assert(prompt@ =~= mid + completion_blocks(after));
                i = i + 1;
            }
            assert(contents_of(contexts@).subrange(0, contexts@.len() as int) =~= contents_of(contexts@));
            push_str(
                &mut prompt,
                "\nGiven the context information and not prior knowledge, answer the query.\n\n",
            );
        }
        push_str(&mut prompt, "Query: ");
        push_str(&mut prompt, query);
        push_str(&mut prompt, "\n\nAnswer:");
        assert(prompt@ =~= completion_prompt(query@, contents_of(contexts@)));
        prompt
    }
}

} // verus!
