//! The prompt and token handling around LLaVA: which conversation template a
//! model uses, where the image goes in the prompt, and how the image token is
//! spliced between the prompt's tokens. The tokenizer and the model itself
//! are not part of this build.

use vstd::prelude::*;
use crate::text;

verus! {

/// The image token of the prompt.
pub const DEFAULT_IMAGE_TOKEN: &'static str = "<image>";

/// Marks the start of the image.
pub const DEFAULT_IM_START_TOKEN: &'static str = "<im_start>";

/// Marks the end of the image.
pub const DEFAULT_IM_END_TOKEN: &'static str = "<im_end>";

/// Where a prompt asks for the image to go.
pub const IMAGE_PLACEHOLDER: &'static str = "<image-placeholder>";

/// The part of `s` after its last `/` (all of it when it has none).
pub open spec fn after_last_slash(s: Seq<char>) -> Seq<char>
    decreases s.len(),
{
    if s.len() == 0 {
        s
    } else if s.last() == '/' {
        Seq::empty()
    } else {
        after_last_slash(s.drop_last()).push(s.last())
    }
}

/// The conversation template for a model, chosen by its lowercased name
/// (the part of the id after the last `/`).
pub open spec fn conv_mode(model_id: Seq<char>) -> Seq<char> {
    let name = text::str_to_lowercase(after_last_slash(model_id));
    if text::contains(name, "llama-2"@) {
        "llava_llama_2"@
    } else if text::contains(name, "mistral"@) {
        "mistral_instruct"@
    } else if text::contains(name, "v1.6-34b"@) {
        "chatml_direct"@
    } else if text::contains(name, "1.5"@) || text::contains(name, "v1"@) {
        "llava_v1"@
    } else if text::contains(name, "mpt"@) {
        "mpt"@
    } else {
        "llava_v1"@
    }
}

/// The conversation template for `model_id`, as [`conv_mode`] states it.
pub fn conv_mode_for_model(model_id: &str) -> (r: &'static str)
    ensures
        r@ == conv_mode(model_id@),
{
    let id = text::chars_of(model_id);
    let mut start = id.len();
    assert(id@.take(start as int) =~= id@);
    assert(id@.skip(start as int) =~= Seq::<char>::empty());
    while start > 0 && id[start - 1] != '/'
        invariant
            start <= id@.len(),
            after_last_slash(id@) == after_last_slash(id@.take(start as int)) + id@.skip(
                start as int,
            ),
        decreases start,
    {
        assert(id@.take(start as int).drop_last() =~= id@.take(start - 1));
        assert(id@.skip(start - 1) =~= seq![id@[start - 1]] + id@.skip(start as int));
        assert(after_last_slash(id@.take(start as int)) =~= after_last_slash(id@.take(start - 1)).push(
            id@[start - 1],
        ));
        start = start - 1;
    }
    proof {
        if start == 0 {
            assert(id@.take(0) =~= Seq::<char>::empty());
        } else {
            assert(id@.take(start as int).last() == '/');
        }
        assert(after_last_slash(id@) =~= id@.skip(start as int));
    }
    let name = text::lowercase(&text::copy_range(&id, start, id.len()));
    let has = |p: &str| -> (b: bool)
        ensures
            b == text::contains(name@, p@),
        { text::contains_exec(&name, &text::chars_of(p)) };
    if has("llama-2") {
        "llava_llama_2"
    } else if has("mistral") {
        "mistral_instruct"
    } else if has("v1.6-34b") {
        "chatml_direct"
    } else if has("1.5") || has("v1") {
        "llava_v1"
    } else if has("mpt") {
        "mpt"
    } else {
        "llava_v1"
    }
}

/// The prompt given to the model: the placeholder, if the prompt has one,
/// replaced by the image token (framed by start and end tokens when the
/// model uses them); else the image token and a newline put in front.
pub open spec fn prompt_with_image(prompt: Seq<char>, mm_use_im_start_end: bool) -> Seq<char> {
    let image = if mm_use_im_start_end {
        "<im_start>"@ + "<image>"@ + "<im_end>"@
    } else {
        "<image>"@
    };
    if text::contains(prompt, "<image-placeholder>"@) {
        text::replace_all(prompt, "<image-placeholder>"@, image)
    } else {
        image + seq!['\n'] + prompt
    }
}

/// The prompt given to the model, as [`prompt_with_image`] states it.
pub fn build_prompt(prompt: &str, mm_use_im_start_end: bool) -> (r: String)
    ensures
        r@ == prompt_with_image(prompt@, mm_use_im_start_end),
{
    let p = text::chars_of(prompt);
    let image = if mm_use_im_start_end {
        let a = text::concat(&text::chars_of(DEFAULT_IM_START_TOKEN), &text::chars_of(DEFAULT_IMAGE_TOKEN));
        text::concat(&a, &text::chars_of(DEFAULT_IM_END_TOKEN))
    } else {
        text::chars_of(DEFAULT_IMAGE_TOKEN)
    };
    let placeholder = text::chars_of(IMAGE_PLACEHOLDER);
    proof {
        reveal_strlit("<image-placeholder>");
    }
    let out = if text::contains_exec(&p, &placeholder) {
        text::replace_all_exec(&p, &placeholder, &image)
    } else {
        let with_nl = text::concat(&image, &vec!['\n']);
        text::concat(&with_nl, &p)
    };
    text::string_of(&out)
}

/// The floating-point type a model's weights are loaded in.
pub enum WeightDtype {
    F16,
    BF16,
}

/// The weight type a model's `torch_dtype` names; only `float16` and
/// `bfloat16` are supported.
pub open spec fn weight_dtype(torch_dtype: Seq<char>) -> Option<WeightDtype> {
    if torch_dtype == "float16"@ {
        Some(WeightDtype::F16)
    } else if torch_dtype == "bfloat16"@ {
        Some(WeightDtype::BF16)
    } else {
        None
    }
}

/// The weight type for `torch_dtype`, as [`weight_dtype`] states it; an
/// unsupported name is refused with `unsupported dtype <name>`.
pub fn weight_dtype_for(torch_dtype: &str) -> (r: Result<WeightDtype, String>)
    ensures
        match r {
            Ok(d) => weight_dtype(torch_dtype@) == Some(d),
            Err(m) => weight_dtype(torch_dtype@) is None && m@ == "unsupported dtype "@
                + torch_dtype@,
        },
{
    let name = text::chars_of(torch_dtype);
    if text::chars_eq(&name, &text::chars_of("float16")) {
        Ok(WeightDtype::F16)
    } else if text::chars_eq(&name, &text::chars_of("bfloat16")) {
        Ok(WeightDtype::BF16)
    } else {
        let msg = text::concat(&text::chars_of("unsupported dtype "), &name);
        Err(text::string_of(&msg))
    }
}

/// The conversation templates captioning can run with.
pub enum ConvTemplate {
    ChatmlDirect,
    LlavaV1,
}

/// The template a conversation mode names; of the modes that
/// [`conv_mode`] gives, only `chatml_direct` and `llava_v1` are supported.
pub open spec fn conv_template(mode: Seq<char>) -> Option<ConvTemplate> {
    if mode == "chatml_direct"@ {
        Some(ConvTemplate::ChatmlDirect)
    } else if mode == "llava_v1"@ {
        Some(ConvTemplate::LlavaV1)
    } else {
        None
    }
}

/// The template for conversation mode `mode`, as [`conv_template`] states it;
/// any other mode is refused with `unsupported conv mode <mode>`.
pub fn conversation_template(mode: &str) -> (r: Result<ConvTemplate, String>)
    ensures
        match r {
            Ok(t) => conv_template(mode@) == Some(t),
            Err(m) => conv_template(mode@) is None && m@ == "unsupported conv mode "@ + mode@,
        },
{
    let name = text::chars_of(mode);
    if text::chars_eq(&name, &text::chars_of("chatml_direct")) {
        Ok(ConvTemplate::ChatmlDirect)
    } else if text::chars_eq(&name, &text::chars_of("llava_v1")) {
        Ok(ConvTemplate::LlavaV1)
    } else {
        let msg = text::concat(&text::chars_of("unsupported conv mode "), &name);
        Err(text::string_of(&msg))
    }
}

/// The part of the embeddings one forward pass of generation reads.
pub struct ForwardWindow {
    /// First embedding position given to the model.
    pub start: usize,
    /// Position in the key/value cache the pass starts at.
    pub context_index: usize,
}

/// Generation between two forward passes.
pub struct DecodeState {
    /// Forward passes made so far.
    pub index: usize,
    /// Embeddings the key/value cache holds.
    pub index_pos: usize,
    /// Length of the embedding sequence.
    pub embeds_len: usize,
}

/// Generation before the first pass, over the `embeds_len` embeddings of the
/// prompt and image.
pub open spec fn initial_decode(embeds_len: usize) -> DecodeState {
    DecodeState { index: 0, index_pos: 0, embeds_len }
}

/// The window of the next pass: with a key/value cache, every pass after the
/// first reads only the newest embedding, at the cache's position; otherwise
/// a pass reads all embeddings from position 0.
pub open spec fn window_of(state: DecodeState, use_kv_cache: bool) -> ForwardWindow {
    if use_kv_cache && state.index > 0 {
        ForwardWindow {
            start: if state.embeds_len >= 1 {
                (state.embeds_len - 1) as usize
            } else {
                0
            },
            context_index: state.index_pos,
        }
    } else {
        ForwardWindow { start: 0, context_index: 0 }
    }
}

/// The window of the next forward pass, as [`window_of`] states it.
pub fn forward_window(state: &DecodeState, use_kv_cache: bool) -> (r: ForwardWindow)
    ensures
        r == window_of(*state, use_kv_cache),
        r.start <= state.embeds_len,
{
    if use_kv_cache && state.index > 0 {
        ForwardWindow { start: state.embeds_len.saturating_sub(1), context_index: state.index_pos }
    } else {
        ForwardWindow { start: 0, context_index: 0 }
    }
}

/// What a forward pass leads to.
pub enum DecodeStep {
    /// The end-of-text token was sampled: generation stops and the token is
    /// not shown.
    EndOfText,
    /// The sampled token is shown, and generation may go on from `next`.
    Token { next: DecodeState },
}

/// Generation after a pass over `window` from `state`: one more pass, the
/// cache grown by the embeddings the pass read, and the sampled token's
/// embedding appended.
pub open spec fn advanced(state: DecodeState, window: ForwardWindow) -> DecodeState {
    DecodeState {
        index: (state.index + 1) as usize,
        index_pos: (state.index_pos + (state.embeds_len - window.start)) as usize,
        embeds_len: (state.embeds_len + 1) as usize,
    }
}

/// What follows a forward pass over `window` that sampled `next_token`:
/// the end of the text when it is `eos_token_id`, else the token, with the
/// state [`advanced`] states.
pub fn after_sample(state: &DecodeState, window: &ForwardWindow, next_token: u32, eos_token_id: u32) -> (r:
    DecodeStep)
    requires
        window.start <= state.embeds_len,
        state.index < usize::MAX,
        state.embeds_len < usize::MAX,
        state.index_pos + (state.embeds_len - window.start) <= usize::MAX,
    ensures
        next_token == eos_token_id ==> r is EndOfText,
        next_token != eos_token_id ==> r == (DecodeStep::Token { next: advanced(*state, *window) }),
{
    if next_token == eos_token_id {
        return DecodeStep::EndOfText;
    }
    DecodeStep::Token {
        next: DecodeState {
            index: state.index + 1,
            index_pos: state.index_pos + (state.embeds_len - window.start),
            embeds_len: state.embeds_len + 1,
        },
    }
}

/// With a key/value cache, the cache holds every embedding but the newest
/// one before each pass after the first: the first pass reads them all, each
/// later one only the newest.
pub proof fn lemma_cache_trails_embeddings(state: DecodeState)
    requires
        state.index > 0,
        state.index_pos + 1 == state.embeds_len,
        state.embeds_len < usize::MAX,
    ensures
        window_of(state, true).context_index == state.index_pos,
        window_of(state, true).start == state.index_pos,
        advanced(state, window_of(state, true)).index_pos + 1 == advanced(
            state,
            window_of(state, true),
        ).embeds_len,
{
}

/// The first pass reads every embedding of the prompt and image, and leaves
/// the cache one embedding behind.
pub proof fn lemma_first_pass_reads_all(embeds_len: usize, use_kv_cache: bool)
    requires
        embeds_len < usize::MAX,
    ensures
        window_of(initial_decode(embeds_len), use_kv_cache).start == 0,
        advanced(
            initial_decode(embeds_len),
            window_of(initial_decode(embeds_len), use_kv_cache),
        ).index_pos == embeds_len,
        advanced(
            initial_decode(embeds_len),
            window_of(initial_decode(embeds_len), use_kv_cache),
        ).embeds_len == embeds_len + 1,
{
}

/// `n` copies of `vec` one after the other, each element cloned.
pub fn duplicate_vec<T: Clone>(vec: &[T], n: usize) -> (r: Vec<T>)
    requires
        n * vec@.len() <= usize::MAX,
    ensures
        r@.len() == n * vec@.len(),
        forall|k: int| 0 <= k < r@.len() ==> cloned(vec@[k % vec@.len() as int], #[trigger] r@[k]),
{
    let m = vec.len();
    let mut res: Vec<T> = Vec::new();
    let mut i: usize = 0;
    while i < n
        invariant
            m == vec@.len(),
            n * m <= usize::MAX,
            i <= n,
            res@.len() == i * m,
            forall|k: int| 0 <= k < res@.len() ==> cloned(vec@[k % m as int], #[trigger] res@[k]),
        decreases n - i,
    {
        let mut j: usize = 0;
        assert(i * m + m == (i + 1) * m && (i + 1) * m <= n * m) by (nonlinear_arith)
            requires
                i < n,
        ;
        while j < m
            invariant
                m == vec@.len(),
                n * m <= usize::MAX,
                i < n,
                j <= m,
                (i + 1) * m <= n * m,
                res@.len() == i * m + j,
                forall|k: int| 0 <= k < res@.len() ==> cloned(vec@[k % m as int], #[trigger] res@[k]),
            decreases m - j,
        {
            let ghost k = res@.len() as int;
            proof {
                vstd::arithmetic::div_mod::lemma_fundamental_div_mod_converse_mod(
                    k,
                    m as int,
                    i as int,
                    j as int,
                );
            }
            let c = vec[j].clone();
            res.push(c);
            j = j + 1;
        }
        i = i + 1;
    }
    res
}

/// `b` is a clone of a clone of `a`.
pub open spec fn cloned_twice<T: Clone>(a: T, b: T) -> bool {
    exists|m: T| cloned(a, m) && #[trigger] cloned(m, b)
}

/// `x` with a separator between each two of its parts (nothing when `x` is
/// empty): each part is a clone of the part of `x`, and each separator a
/// clone of one of `x.len()` clones of `sep` made first.
pub fn insert_separator<T: Clone>(x: Vec<Vec<T>>, sep: Vec<T>) -> (r: Vec<Vec<T>>)
    requires
        2 * x@.len() <= usize::MAX,
    ensures
        r@.len() == if x@.len() == 0 {
            0
        } else {
            2 * x@.len() - 1
        },
        forall|k: int| 0 <= k < r@.len() && k % 2 == 0 ==> cloned(x@[k / 2], #[trigger] r@[k]),
        forall|k: int| 0 <= k < r@.len() && k % 2 == 1 ==> cloned_twice(sep, #[trigger] r@[k]),
{
    let ghost sep0 = sep;
    let n = x.len();
    let one = vec![sep];
    assert(one@[0] == sep0);
    assert(one@.len() == 1);
    assert(n * one@.len() == n) by (nonlinear_arith)
        requires
            one@.len() == 1,
    ;
    let seps = duplicate_vec(&one, n);
    assert forall|k: int| 0 <= k < seps@.len() implies cloned(sep0, #[trigger] seps@[k]) by {
        assert(k % 1 == 0);
    }
    let mut res: Vec<Vec<T>> = Vec::new();
    let mut i: usize = 0;
    while i < n
        invariant
            n == x@.len(),
            2 * n <= usize::MAX,
            seps@.len() == n,
            forall|k: int| 0 <= k < n ==> cloned(sep0, #[trigger] seps@[k]),
            i <= n,
            res@.len() == 2 * i,
            forall|k: int| 0 <= k < res@.len() && k % 2 == 0 ==> cloned(x@[k / 2], #[trigger] res@[k]),
            forall|k: int|
                0 <= k < res@.len() && k % 2 == 1 ==> cloned(seps@[k / 2], #[trigger] res@[k]),
        decreases n - i,
    {
        let part = x[i].clone();
        res.push(part);
        let s = seps[i].clone();
        res.push(s);
        i = i + 1;
    }
    let ghost full = res@;
    if n > 0 {
        res.pop();
    }
    assert(forall|k: int| 0 <= k < res@.len() ==> #[trigger] res@[k] == full[k]);
    assert forall|k: int| 0 <= k < res@.len() && k % 2 == 1 implies cloned_twice(
        sep0,
        #[trigger] res@[k],
    ) by {
        assert(res@[k] == full[k]);
        assert(cloned(sep0, seps@[k / 2]));
        assert(cloned(seps@[k / 2], res@[k]));
    }
    res
}

/// Concatenation of the parts, each without its first element, with `fill`
/// between each two.
pub open spec fn spliced(chunks: Seq<Seq<i64>>, fill: Seq<i64>) -> Seq<i64>
    decreases chunks.len(),
{
    if chunks.len() == 0 {
        Seq::empty()
    } else if chunks.len() == 1 {
        chunks[0].drop_first()
    } else {
        spliced(chunks.drop_last(), fill) + fill + chunks.last().drop_first()
    }
}

/// Whether the first token of the first chunk is the beginning-of-sequence token.
pub open spec fn leads_with_bos(chunks: Seq<Seq<i64>>, bos_token_id: i64) -> bool {
    chunks.len() > 0 && chunks[0].len() > 0 && chunks[0][0] == bos_token_id
}

/// The token ids of a prompt given the token ids of its space-separated
/// pieces (each starting with the token the tokenizer puts first): the
/// beginning-of-sequence token once when the first piece starts with it, then
/// each piece without its first token, with the image token between each two
/// pieces when the beginning-of-sequence token led.
pub open spec fn image_token_ids(chunks: Seq<Seq<i64>>, bos_token_id: i64, image_token_index: i64) -> Seq<i64> {
    if leads_with_bos(chunks, bos_token_id) {
        seq![bos_token_id] + spliced(chunks, seq![image_token_index])
    } else {
        spliced(chunks, Seq::empty())
    }
}

/// The ids given to the model for a prompt whose space-separated pieces were
/// tokenized into `prompt_chunks`, as [`image_token_ids`] states it. Every
/// piece has at least one token.
pub fn splice_image_token(prompt_chunks: Vec<Vec<i64>>, bos_token_id: i64, image_token_index: i64) -> (r:
    Vec<i64>)
    requires
        forall|k: int| 0 <= k < prompt_chunks@.len() ==> #[trigger] prompt_chunks@[k]@.len() > 0,
    ensures
        r@ == image_token_ids(
            prompt_chunks@.map_values(|c: Vec<i64>| c@),
            bos_token_id,
            image_token_index,
        ),
{
    let ghost cs = prompt_chunks@.map_values(|c: Vec<i64>| c@);
    let lead = prompt_chunks.len() > 0 && prompt_chunks[0].len() > 0 && prompt_chunks[0][0]
        == bos_token_id;
    assert(lead == leads_with_bos(cs, bos_token_id));
    let mut input_ids: Vec<i64> = Vec::new();
    let mut fill: Vec<i64> = Vec::new();
    if lead {
        input_ids.push(bos_token_id);
        fill.push(image_token_index);
    }
    let ghost head = input_ids@;
    let ghost f = fill@;
    let n = prompt_chunks.len();
    let mut i: usize = 0;
    while i < n
        invariant
            n == prompt_chunks@.len(),
            cs == prompt_chunks@.map_values(|c: Vec<i64>| c@),
            forall|k: int| 0 <= k < n ==> #[trigger] prompt_chunks@[k]@.len() > 0,
            fill@ == f,
            i <= n,
            input_ids@ == head + spliced(cs.take(i as int), f),
        decreases n - i,
    {
        let chunk = &prompt_chunks[i];
        assert(chunk@ == cs[i as int]);
        let ghost before = input_ids@;
        if i > 0 {
            let mut e: usize = 0;
            while e < fill.len()
                invariant
                    e <= fill@.len(),
                    input_ids@ == before + fill@.take(e as int),
                decreases fill@.len() - e,
            {
                input_ids.push(fill[e]);
                e = e + 1;
                assert(input_ids@ =~= before + fill@.take(e as int));
            }
            assert(fill@.take(fill@.len() as int) =~= fill@);
        }
        let ghost mid = input_ids@;
        let mut t: usize = 1;
        while t < chunk.len()
            invariant
                1 <= t <= chunk@.len(),
                input_ids@ == mid + chunk@.subrange(1, t as int),
            decreases chunk@.len() - t,
        {
            input_ids.push(chunk[t]);
            t = t + 1;
            assert(input_ids@ =~= mid + chunk@.subrange(1, t as int));
        }
        proof {
            let next = cs.take(i + 1);
            assert(next.drop_last() =~= cs.take(i as int));
            assert(next.last() == cs[i as int]);
            assert(chunk@.subrange(1, chunk@.len() as int) =~= chunk@.drop_first());
            if i == 0 {
                assert(cs.take(0) =~= Seq::<Seq<i64>>::empty());
                assert(input_ids@ =~= head + spliced(next, f));
            } else {
                assert(input_ids@ =~= head + spliced(next, f));
            }
        }
        i = i + 1;
    }
    assert(cs.take(n as int) =~= cs);
    input_ids
}

} // verus!
