use tts_worker_rs::phonemize::{
    phonemize_to_phones, postprocess_line, preserve_punctuation, restore_punctuation, Mark,
};

#[test]
fn test_postprocess_line_basic() {
    let input = "h_ə_l_ˈoʊ";
    let result = postprocess_line(input);
    assert_eq!(result, "həlˈoʊ ");
}

#[test]
fn test_postprocess_line_multi_word() {
    let input = "h_ə_l_ˈoʊ w_ˈɜː_l_d";
    let result = postprocess_line(input);
    assert_eq!(result, "həlˈoʊ wˈɜːld ");
}

#[test]
fn test_postprocess_line_double_underscore() {
    let input = "h_ə__l_ˈoʊ";
    let result = postprocess_line(input);
    assert_eq!(result, "həlˈoʊ ");
}

#[test]
fn test_postprocess_line_underscore_space() {
    let input = "h_ə_l_ˈoʊ_ w_ˈɜː_l_d";
    let result = postprocess_line(input);
    assert_eq!(result, "həlˈoʊ wˈɜːld ");
}

#[test]
fn test_postprocess_line_language_switch() {
    let input = "h_ə_l_ˈoʊ (en) w_ˈɜː_l_d";
    let result = postprocess_line(input);
    assert_eq!(result, "həlˈoʊ wˈɜːld ");
}

#[test]
fn test_postprocess_line_empty() {
    assert_eq!(postprocess_line(""), "");
    assert_eq!(postprocess_line("  "), "");
}

#[test]
fn test_preserve_punctuation_hello_world_test() {
    let (chunks, marks) = preserve_punctuation("Hello, world! This is a test.");
    assert_eq!(chunks, vec!["Hello", "world", "This is a test"]);
    assert_eq!(marks.len(), 3);
    assert_eq!(marks[0].mark, ", ");
    assert_eq!(marks[0].position, 'I');
    assert_eq!(marks[1].mark, "! ");
    assert_eq!(marks[1].position, 'I');
    assert_eq!(marks[2].mark, ".");
    assert_eq!(marks[2].position, 'E');
}

#[test]
fn test_preserve_punctuation_ready() {
    let (chunks, marks) = preserve_punctuation("Ready.");
    assert_eq!(chunks, vec!["Ready"]);
    assert_eq!(marks.len(), 1);
    assert_eq!(marks[0].mark, ".");
    assert_eq!(marks[0].position, 'E');
}

#[test]
fn test_preserve_punctuation_begin() {
    let (chunks, marks) = preserve_punctuation("!Hello world");
    assert_eq!(marks[0].position, 'B');
    assert_eq!(chunks, vec!["Hello world"]);
}

#[test]
fn test_preserve_punctuation_alone() {
    let (chunks, marks) = preserve_punctuation("!!!");
    assert!(chunks.is_empty());
    assert_eq!(marks.len(), 1);
    assert_eq!(marks[0].position, 'A');
}

#[test]
fn test_preserve_punctuation_no_marks() {
    let (chunks, marks) = preserve_punctuation("Hello world");
    assert_eq!(chunks, vec!["Hello world"]);
    assert!(marks.is_empty());
}

#[test]
fn test_restore_punctuation_hello_world() {
    let chunks = vec!["həlˈoʊ ".to_string(), "wˈɜːld ".to_string(), "ðɪs ɪz ɐ tˈɛst ".to_string()];
    let marks = vec![
        Mark { mark: ", ".to_string(), position: 'I' },
        Mark { mark: "! ".to_string(), position: 'I' },
        Mark { mark: ".".to_string(), position: 'E' },
    ];
    let result = restore_punctuation(chunks, marks);
    assert_eq!(result, "həlˈoʊ, wˈɜːld! ðɪs ɪz ɐ tˈɛst. ");
}

#[test]
fn test_restore_punctuation_ready() {
    let chunks = vec!["ɹˈɛdi ".to_string()];
    let marks = vec![Mark { mark: ".".to_string(), position: 'E' }];
    let result = restore_punctuation(chunks, marks);
    assert_eq!(result, "ɹˈɛdi. ");
}

#[test]
fn test_full_pipeline_hello_world_no_espeak() {
    let text = "Hello, world! This is a test.";
    let (chunks, marks) = preserve_punctuation(text);
    assert_eq!(chunks, vec!["Hello", "world", "This is a test"]);

    // Simulate espeak output for each chunk
    let espeak_outputs = [
        "h_ə_l_ˈoʊ",             // "Hello"
        "w_ˈɜː_l_d",             // "world"
        "ð_ɪ_s ɪ_z ɐ t_ˈɛ_s_t", // "This is a test"
    ];

    let mut phonemed: Vec<String> = Vec::new();
    for raw in &espeak_outputs {
        let processed = postprocess_line(raw);
        if !processed.is_empty() {
            phonemed.push(processed);
        }
    }
    assert_eq!(phonemed, vec!["həlˈoʊ ", "wˈɜːld ", "ðɪs ɪz ɐ tˈɛst "]);

    let restored = restore_punctuation(phonemed, marks);
    let result: String = restored.split_whitespace().collect::<Vec<&str>>().join(" ");
    assert_eq!(result, "həlˈoʊ, wˈɜːld! ðɪs ɪz ɐ tˈɛst.");
}

#[test]
fn test_full_pipeline_ready_no_espeak() {
    let text = "Ready.";
    let (chunks, marks) = preserve_punctuation(text);
    assert_eq!(chunks, vec!["Ready"]);

    let espeak_outputs = ["ɹ_ˈɛ_d_i"];
    let mut phonemed: Vec<String> = Vec::new();
    for raw in &espeak_outputs {
        let processed = postprocess_line(raw);
        if !processed.is_empty() {
            phonemed.push(processed);
        }
    }
    assert_eq!(phonemed, vec!["ɹˈɛdi "]);

    let restored = restore_punctuation(phonemed, marks);
    let result: String = restored.split_whitespace().collect::<Vec<&str>>().join(" ");
    assert_eq!(result, "ɹˈɛdi.");
}

#[test]
fn test_preserve_dr_smith() {
    let (chunks, marks) = preserve_punctuation("Dr. Smith paid $5.50 on 3/4/2025 — what a deal!");
    assert_eq!(chunks, vec!["Dr", "Smith paid $5", "50 on 3/4/2025", "what a deal"]);
    assert_eq!(marks.len(), 4);
    assert_eq!(marks[0].mark, ". ");
    assert_eq!(marks[0].position, 'I');
    assert_eq!(marks[1].mark, ".");
    assert_eq!(marks[1].position, 'I');
    assert_eq!(marks[2].mark, " — ");
    assert_eq!(marks[2].position, 'I');
    assert_eq!(marks[3].mark, "!");
    assert_eq!(marks[3].position, 'E');
}

#[test]
fn test_preserve_cant_believe() {
    let (chunks, marks) = preserve_punctuation("I can't believe it's already 10am.");
    assert_eq!(chunks, vec!["I can't believe it's already 10am"]);
    assert_eq!(marks.len(), 1);
    assert_eq!(marks[0].mark, ".");
    assert_eq!(marks[0].position, 'E');
}

#[test]
fn test_preserve_parens() {
    let (chunks, marks) = preserve_punctuation("Hello (world)");
    assert_eq!(marks.len(), 2);
    assert_eq!(marks[0].mark, " (");
    assert_eq!(marks[0].position, 'I');
    assert_eq!(marks[1].mark, ")");
    assert_eq!(marks[1].position, 'E');
    assert_eq!(chunks, vec!["Hello", "world"]);
}

#[test]
fn test_restore_begin_mark() {
    let chunks = vec!["həlˈoʊ ".to_string()];
    let marks = vec![Mark { mark: "!".to_string(), position: 'B' }];
    let result = restore_punctuation(chunks, marks);
    assert_eq!(result, "!həlˈoʊ ");
}

#[test]
fn test_restore_alone_mark() {
    let chunks: Vec<String> = vec![];
    let marks = vec![Mark { mark: "!!!".to_string(), position: 'A' }];
    let result = restore_punctuation(chunks, marks);
    assert_eq!(result, "!!!");
}

#[test]
fn test_postprocess_ready() {
    let input = "ɹ_ˈɛ_d_i";
    let result = postprocess_line(input);
    assert_eq!(result, "ɹˈɛdi ");
}

#[test]
fn test_postprocess_this_is_a_test() {
    let input = "ð_ɪ_s ɪ_z ɐ t_ˈɛ_s_t";
    let result = postprocess_line(input);
    assert_eq!(result, "ðɪs ɪz ɐ tˈɛst ");
}

#[test]
fn test_preserve_em_dash() {
    let (chunks, marks) = preserve_punctuation("Hello — world");
    assert_eq!(marks.len(), 1);
    assert_eq!(marks[0].mark, " — ");
    assert_eq!(marks[0].position, 'I');
    assert_eq!(chunks, vec!["Hello", "world"]);
}

// ---------------------------------------------------------------------------
// Further cases
// ---------------------------------------------------------------------------

/// Interleaving the chunks and marks gives back the line without its
/// trailing whitespace.
fn rebuild(chunks: &[String], marks: &[Mark]) -> String {
    let lead = !marks.is_empty() && (marks[0].position == 'B' || marks[0].position == 'A');
    let texts: Vec<String> = marks.iter().map(|m| m.mark.clone()).collect();
    let (first, second): (&[String], &[String]) =
        if lead { (&texts, chunks) } else { (chunks, &texts) };
    let mut out = String::new();
    let n = first.len().max(second.len());
    for i in 0..n {
        if i < first.len() {
            out.push_str(&first[i]);
        }
        if i < second.len() {
            out.push_str(&second[i]);
        }
    }
    out
}

#[test]
fn preserve_rebuilds_line() {
    for text in [
        "Hello, world! This is a test.",
        "!Hello world",
        "!!!",
        "Dr. Smith paid $5.50 on 3/4/2025 — what a deal!",
        "  (a) , b ; c  \t\n",
        "Hello world",
        "",
        "“Quoted” «text»… ¿ok? ¡sí!",
    ] {
        let (chunks, marks) = preserve_punctuation(text);
        assert_eq!(rebuild(&chunks, &marks), text.trim_end(), "{text:?}");
    }
}

#[test]
fn preserve_trailing_whitespace_and_empty() {
    let (chunks, marks) = preserve_punctuation("   \t ");
    assert!(chunks.is_empty());
    assert!(marks.is_empty());
    let (chunks, marks) = preserve_punctuation("word , , x  ");
    assert_eq!(chunks, vec!["word", "x"]);
    assert_eq!(marks.len(), 1);
    assert_eq!(marks[0].mark, " , , ");
    assert_eq!(marks[0].position, 'I');
}

#[test]
fn preserve_begin_and_end_marks() {
    let (chunks, marks) = preserve_punctuation("(Hi) there!");
    assert_eq!(chunks, vec!["Hi", "there"]);
    assert_eq!(marks.len(), 3);
    assert_eq!(marks[0].mark, "(");
    assert_eq!(marks[0].position, 'B');
    assert_eq!(marks[1].mark, ") ");
    assert_eq!(marks[1].position, 'I');
    assert_eq!(marks[2].mark, "!");
    assert_eq!(marks[2].position, 'E');
}

#[test]
fn postprocess_unbalanced_and_no_group() {
    // Without a '(' the ')' is kept.
    assert_eq!(postprocess_line("a_b) c"), "ab) c ");
    // An unmatched ')' inside a line with groups is dropped.
    assert_eq!(postprocess_line("a) (x)b c"), "a b c ");
    // Newlines and runs of spaces collapse.
    assert_eq!(postprocess_line(" a_b\n\n c   d "), "ab c d ");
    // "_ " becomes " ", and empty pieces are skipped.
    assert_eq!(postprocess_line("a _ b"), "a b ");
    // A piece of separators only leaves its word separator.
    assert_eq!(postprocess_line("a _"), "a  ");
    // A group covering everything leaves nothing.
    assert_eq!(postprocess_line("(en)"), "");
}

#[test]
fn postprocess_output_shape() {
    for line in ["h_ə_l_ˈoʊ", "a_ _b", "x__y_ z", "(q_) r_"] {
        let r = postprocess_line(line);
        assert!(!r.contains('_'), "{r:?}");
        assert!(r.is_empty() || r.ends_with(' '), "{r:?}");
    }
}

#[test]
fn restore_without_marks_concatenates() {
    let chunks = vec!["ab".to_string(), "cd ".to_string()];
    assert_eq!(restore_punctuation(chunks, vec![]), "abcd ");
}

#[test]
fn restore_marks_after_end_mark() {
    // After an E mark the remaining chunks are emitted, then the remaining marks.
    let chunks = vec!["a ".to_string(), "b".to_string()];
    let marks = vec![
        Mark { mark: ".".to_string(), position: 'E' },
        Mark { mark: "!".to_string(), position: 'E' },
    ];
    assert_eq!(restore_punctuation(chunks, marks), "a. b!");
}

#[test]
fn restore_intermediate_single_chunk() {
    let chunks = vec!["a ".to_string()];
    let marks = vec![Mark { mark: ", ".to_string(), position: 'I' }];
    assert_eq!(restore_punctuation(chunks, marks), "a, ");
}

#[test]
fn phonemize_with_fake_phonemizer() {
    let fake = |s: &str| -> String {
        match s {
            "Hello" => "h_ə_l_ˈoʊ".to_string(),
            "world" => "w_ˈɜː_l_d".to_string(),
            "This is a test" => "ð_ɪ_s ɪ_z ɐ t_ˈɛ_s_t".to_string(),
            _ => String::new(),
        }
    };
    let r = phonemize_to_phones(&fake, "Hello, world! This is a test.");
    assert_eq!(r, "həlˈoʊ, wˈɜːld! ðɪs ɪz ɐ tˈɛst.");
    let r = phonemize_to_phones(&fake, "Ready.");
    assert_eq!(r, ".");
    let r = phonemize_to_phones(&fake, "   ");
    assert_eq!(r, "");
}

#[test]
fn test_preserve_tab_after_mark() {
    let (chunks, marks) = preserve_punctuation("Hello,\tworld");
    assert_eq!(chunks, vec!["Hello".to_string(), "world".to_string()]);
    assert_eq!(marks.len(), 1);
    assert_eq!(marks[0].mark, ",\t");
    assert_eq!(marks[0].position, 'I');
}

#[test]
fn test_restore_inverts_preserve() {
    for text in [
        "Hello, world! This is a test.",
        "(Hello) world",
        "...",
        "no marks here  ",
        "Hello,\tworld",
        "",
        "a ; b ; c;",
    ] {
        let (cs, ms) = preserve_punctuation(text);
        let spaced: Vec<String> = cs.iter().map(|c| format!("{c} ")).collect();
        let expected = if cs.is_empty() {
            text.trim_end().to_string()
        } else {
            format!("{} ", text.trim_end())
        };
        assert_eq!(restore_punctuation(spaced, ms), expected, "text: {text:?}");
    }
}
