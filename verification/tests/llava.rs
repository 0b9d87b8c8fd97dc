use agent_eyes::vlm::llava::{
    after_sample, build_prompt, conv_mode_for_model, conversation_template, duplicate_vec,
    forward_window, insert_separator, splice_image_token, weight_dtype_for, ConvTemplate,
    DecodeState, DecodeStep, WeightDtype,
};

#[test]
fn conversation_modes_by_model_name() {
    assert_eq!(conv_mode_for_model("llava-hf/llava-1.5-7b-hf"), "llava_v1");
    assert_eq!(conv_mode_for_model("liuhaotian/llava-v1.6-34b"), "chatml_direct");
    assert_eq!(conv_mode_for_model("x/LLaMA-2-7b"), "llava_llama_2");
    assert_eq!(conv_mode_for_model("a/b/Mistral-7B"), "mistral_instruct");
    assert_eq!(conv_mode_for_model("llava-mpt"), "mpt");
    assert_eq!(conv_mode_for_model("v1.5/other"), "llava_v1");
    assert_eq!(conv_mode_for_model("foo/bar"), "llava_v1");
}

#[test]
fn prompts_place_the_image() {
    assert_eq!(build_prompt("What is <image-placeholder>?", false), "What is <image>?");
    assert_eq!(
        build_prompt("<image-placeholder> and <image-placeholder>", true),
        "<im_start><image><im_end> and <im_start><image><im_end>"
    );
    assert_eq!(build_prompt("Describe", true), "<im_start><image><im_end>\nDescribe");
    assert_eq!(build_prompt("Describe", false), "<image>\nDescribe");
}

#[test]
fn duplicate_and_separate() {
    assert_eq!(duplicate_vec(&[1, 2], 3), vec![1, 2, 1, 2, 1, 2]);
    assert_eq!(duplicate_vec::<i64>(&[], 3), Vec::<i64>::new());
    assert_eq!(
        insert_separator(vec![vec![1], vec![2], vec![3]], vec![0]),
        vec![vec![1], vec![0], vec![2], vec![0], vec![3]]
    );
    assert_eq!(insert_separator(Vec::<Vec<i64>>::new(), vec![0]), Vec::<Vec<i64>>::new());
}

#[test]
fn image_token_is_spliced_between_pieces() {
    assert_eq!(splice_image_token(vec![vec![1, 10, 11], vec![1, 12]], 1, -200), vec![1, 10, 11, -200, 12]);
    assert_eq!(splice_image_token(vec![vec![5, 6], vec![7, 8]], 1, -200), vec![6, 8]);
    assert_eq!(splice_image_token(vec![], 1, -200), Vec::<i64>::new());
}

#[test]
fn weight_types_and_templates() {
    assert!(matches!(weight_dtype_for("float16"), Ok(WeightDtype::F16)));
    assert!(matches!(weight_dtype_for("bfloat16"), Ok(WeightDtype::BF16)));
    match weight_dtype_for("float32") {
        Err(m) => assert_eq!(m, "unsupported dtype float32"),
        Ok(_) => panic!("float32 is not supported"),
    }
    assert!(matches!(conversation_template("chatml_direct"), Ok(ConvTemplate::ChatmlDirect)));
    assert!(matches!(conversation_template("llava_v1"), Ok(ConvTemplate::LlavaV1)));
    match conversation_template(conv_mode_for_model("x/LLaMA-2-7b")) {
        Err(m) => assert_eq!(m, "unsupported conv mode llava_llama_2"),
        Ok(_) => panic!("llava_llama_2 is not supported"),
    }
}

#[test]
fn generation_reads_everything_once_then_one_embedding_at_a_time() {
    let state = DecodeState { index: 0, index_pos: 0, embeds_len: 600 };
    let w = forward_window(&state, true);
    assert_eq!((w.start, w.context_index), (0, 0));
    let next = match after_sample(&state, &w, 42, 2) {
        DecodeStep::Token { next } => next,
        DecodeStep::EndOfText => panic!("42 is not the end of text"),
    };
    assert_eq!((next.index, next.index_pos, next.embeds_len), (1, 600, 601));
    let w = forward_window(&next, true);
    assert_eq!((w.start, w.context_index), (600, 600));
    let again = match after_sample(&next, &w, 7, 2) {
        DecodeStep::Token { next } => next,
        DecodeStep::EndOfText => panic!("7 is not the end of text"),
    };
    assert_eq!((again.index, again.index_pos, again.embeds_len), (2, 601, 602));
    assert!(matches!(after_sample(&again, &forward_window(&again, true), 2, 2), DecodeStep::EndOfText));
    let w = forward_window(&next, false);
    assert_eq!((w.start, w.context_index), (0, 0));
    let no_cache = match after_sample(&next, &w, 9, 2) {
        DecodeStep::Token { next } => next,
        DecodeStep::EndOfText => panic!("9 is not the end of text"),
    };
    assert_eq!((no_cache.index, no_cache.index_pos, no_cache.embeds_len), (2, 1201, 602));
}
