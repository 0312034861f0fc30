use codeconnect::embed::runtime::{api_minor, check_runtime_version, parse_u32};
use codeconnect::embed::inference::{batch_inputs, batches, needs_token_type_ids, output_layout, pick_output_name, row_source, text_block, RowSource, BATCH_LIMIT};
use codeconnect::embed::download::{check_model_name, check_size, download_files, download_url, keep_existing, part_file_name, DownloadError};
use codeconnect::embed::{
    default_model_dir, ensure_model_files, existing, how_to_get, model_dir, model_dir_candidates, render_searched,
    required_files, resolve_model_dir, runtime_hint, EmbedError, EmbedErrorKind, ModelSource, Pooling, DEFAULT_MODEL_NAME,
    MODEL_REPO,
};

#[test]
fn test_not_configured_is_a_state_not_a_fault() {
    assert_eq!(ModelSource::from_config(None, false), ModelSource::NotConfigured);
    assert_eq!(ModelSource::from_config(Some(""), false), ModelSource::NotConfigured);
    assert_eq!(ModelSource::from_config(Some("   "), true), ModelSource::NotConfigured);
    assert!(!ModelSource::from_config(None, false).is_configured());
    let err = ModelSource::NotConfigured.resolve("/tmp/root", &[]).err().expect("must be an error");
    assert!(matches!(err, EmbedError::NotConfigured));
    assert!(err.is_not_configured());
    assert_eq!(err.kind(), EmbedErrorKind::NotConfigured);
}

#[test]
fn test_config_path_is_used_as_directory() {
    let src = ModelSource::from_config(Some("  /models/mine "), true);
    assert_eq!(src, ModelSource::Dir("/models/mine".to_string()));
    assert!(src.is_configured());
    assert_eq!(src.resolve("/unrelated", &[]).unwrap(), "/models/mine");
    assert_eq!(src.describe(), "/models/mine");
}

#[test]
fn test_config_name_is_resolved_by_name() {
    let src = ModelSource::from_config(Some("not-installed-model"), false);
    assert_eq!(src, ModelSource::Named("not-installed-model".to_string()));
    assert!(src.is_configured());
    assert_eq!(src.describe(), "not-installed-model");
    let err = src.resolve("/root", &[false, false]).err().expect("must fail");
    assert_eq!(err.kind(), EmbedErrorKind::ModelNotReady);
    assert_eq!(ModelSource::NotConfigured.describe(), "未配置");
}

#[test]
fn test_candidates_and_resolution_order() {
    assert_eq!(model_dir_candidates("/root", "my-model"), vec!["/root/my-model".to_string(), "my-model".to_string()]);
    assert_eq!(model_dir_candidates("", "m"), vec!["m".to_string()]);
    assert_eq!(model_dir_candidates("/root", "/abs/m"), vec!["/abs/m".to_string()]);
    assert_eq!(model_dir_candidates(".", "./m"), vec!["././m".to_string()]);
    assert_eq!(resolve_model_dir("/root", "my-model", &[true, false]).unwrap(), "/root/my-model");
    assert_eq!(resolve_model_dir("/root", "my-model", &[false, true]).unwrap(), "my-model");
}

#[test]
fn test_missing_model_lists_searched_paths() {
    let err = resolve_model_dir("/root", "no-such-model", &[false, false]).err().unwrap();
    assert_eq!(err.kind(), EmbedErrorKind::ModelNotReady);
    assert!(!err.is_not_configured());
    match err {
        EmbedError::ModelDirMissing { dir, searched, how_to_get } => {
            assert_eq!(dir, "/root/no-such-model");
            assert_eq!(searched, "  /root/no-such-model\n  no-such-model");
            assert!(how_to_get.contains("download-model"));
            assert!(how_to_get.contains("/root/no-such-model"));
        }
        other => panic!("unexpected: {:?}", other),
    }
}

#[test]
fn test_ensure_model_files() {
    assert!(ensure_model_files("/m", "/root", true, &[true, true]).is_ok());
    match ensure_model_files("/m", "/root", true, &[false, false]).err().unwrap() {
        EmbedError::ModelIncomplete { dir, missing, .. } => {
            assert_eq!(dir, "/m");
            assert_eq!(missing, "model.onnx, tokenizer.json");
        }
        other => panic!("unexpected: {:?}", other),
    }
    match ensure_model_files("/m", "/root", true, &[true, false]).err().unwrap() {
        EmbedError::ModelIncomplete { missing, .. } => assert_eq!(missing, "tokenizer.json"),
        other => panic!("unexpected: {:?}", other),
    }
    match ensure_model_files("/m", "/root", false, &[true, true]).err().unwrap() {
        EmbedError::ModelDirMissing { dir, searched, .. } => {
            assert_eq!(dir, "/m");
            assert_eq!(searched, "  /m");
        }
        other => panic!("unexpected: {:?}", other),
    }
    assert_eq!(required_files(), vec!["model.onnx".to_string(), "tokenizer.json".to_string()]);
}

#[test]
fn test_how_to_get_text() {
    let text = how_to_get("/m/dir", "/r");
    assert!(text.starts_with("获取方式（任选其一）：\n1) 运行内置下载器"));
    assert!(text.contains("--root \"/r\"\n   会落到 /r/paraphrase-multilingual-MiniLM-L12-v2（"));
    assert!(text.contains(MODEL_REPO));
    assert!(text.contains("   放进 /m/dir，分别命名为"));
    assert!(text.ends_with("{\"pooling\":\"mean\"}）"));
}

#[test]
fn test_model_dirs() {
    assert_eq!(model_dir("/r", "x"), "/r/x");
    assert_eq!(default_model_dir("/r/"), format!("/r/{}", DEFAULT_MODEL_NAME));
}

#[test]
fn test_render_searched() {
    assert_eq!(render_searched(&[]), "");
    assert_eq!(render_searched(&["a".to_string()]), "  a");
}

#[test]
fn test_error_kinds() {
    assert_eq!(EmbedError::Session("x".into()).kind(), EmbedErrorKind::Runtime);
    assert_eq!(EmbedError::RuntimeUnavailable { detail: "d".into(), hint: "h".into() }.kind(), EmbedErrorKind::Runtime);
    assert_eq!(
        EmbedError::ModelIncomplete { dir: "d".into(), missing: "m".into(), how_to_get: "h".into() }.kind(),
        EmbedErrorKind::ModelNotReady
    );
}

#[test]
fn test_pooling_resolution() {
    assert_eq!(Pooling::resolve(Some(Pooling::Mean), Some(Pooling::Cls)), Pooling::Mean);
    assert_eq!(Pooling::resolve(None, Some(Pooling::Mean)), Pooling::Mean);
    assert_eq!(Pooling::resolve(None, None), Pooling::Cls);
    assert_eq!(Pooling::from_name("mean"), Some(Pooling::Mean));
    assert_eq!(Pooling::from_name("cls"), Some(Pooling::Cls));
    assert_eq!(Pooling::from_name("max"), None);
    assert_eq!(Pooling::from_flags(true, true), Some(Pooling::Mean));
    assert_eq!(Pooling::from_flags(false, true), Some(Pooling::Cls));
    assert_eq!(Pooling::from_flags(false, false), None);
}

#[test]
fn test_runtime_hint_and_existing() {
    let hint = runtime_hint("libonnxruntime.so", 22);
    assert!(hint.starts_with("请准备 ONNX Runtime 动态库（libonnxruntime.so，次版本须 >= 22）"));
    assert!(hint.contains("ORT_DYLIB_PATH = '<...>\\libonnxruntime.so'"));
    assert!(hint.ends_with("也可用 CODECONNECT_ORT_DYLIB。"));
    assert_eq!(existing("/x.so", "ORT_DYLIB_PATH=/x.so", "libonnxruntime.so", true), Ok("/x.so".to_string()));
    assert_eq!(
        existing("/x.so", "ORT_DYLIB_PATH=/x.so", "libonnxruntime.so", false),
        Err("ORT_DYLIB_PATH=/x.so 指向的 libonnxruntime.so 不存在：/x.so".to_string())
    );
}

#[test]
fn test_download_decisions() {
    assert!(check_model_name(DEFAULT_MODEL_NAME).is_ok());
    match check_model_name("other").err().unwrap() {
        DownloadError::UnknownModel { name, supported } => {
            assert_eq!(name, "other");
            assert_eq!(supported, DEFAULT_MODEL_NAME);
        }
        other => panic!("unexpected: {:?}", other),
    }
    assert_eq!(
        download_url("https://hf-mirror.com//", "tokenizer.json"),
        "https://hf-mirror.com/Xenova/paraphrase-multilingual-MiniLM-L12-v2/resolve/main/tokenizer.json"
    );
    assert!(keep_existing(false, true, 10, 10));
    assert!(!keep_existing(true, true, 10, 10));
    assert!(!keep_existing(false, true, 9, 10));
    assert!(!keep_existing(false, false, 10, 10));
    assert!(check_size("a", 0, 5).is_ok());
    assert!(check_size("a", 5, 5).is_ok());
    match check_size("a", 5, 4).err().unwrap() {
        DownloadError::SizeMismatch { name, expected, got } => {
            assert_eq!((name.as_str(), expected, got), ("a", 5, 4));
        }
        other => panic!("unexpected: {:?}", other),
    }
    let files = download_files();
    assert_eq!(files.len(), 2);
    assert_eq!(files[0].1, "model.onnx");
    assert_eq!(files[1].2, 17_082_913);
}

#[test]
fn test_pick_output_name_prefers_pooled_output() {
    let names = |v: &[&str]| v.iter().map(|s| s.to_string()).collect::<Vec<String>>();
    assert_eq!(pick_output_name(&names(&["last_hidden_state", "sentence_embedding"])).unwrap(), "sentence_embedding");
    assert_eq!(pick_output_name(&names(&["logits", "last_hidden_state"])).unwrap(), "last_hidden_state");
    assert_eq!(pick_output_name(&names(&["logits", "other"])).unwrap(), "logits");
    match pick_output_name(&[]) {
        Err(EmbedError::BadOutput(m)) => assert_eq!(m, "模型没有任何输出"),
        other => panic!("unexpected: {:?}", other.map(|_| ())),
    }
    assert!(needs_token_type_ids(&names(&["input_ids", "attention_mask", "token_type_ids"])));
    assert!(!needs_token_type_ids(&names(&["input_ids", "attention_mask"])));
}

#[test]
fn test_batches_of_thirty_two() {
    assert_eq!(BATCH_LIMIT, 32);
    assert!(batches(0).is_empty());
    assert_eq!(batches(5), vec![(0, 5)]);
    assert_eq!(batches(32), vec![(0, 32)]);
    assert_eq!(batches(70), vec![(0, 32), (32, 64), (64, 70)]);
}

#[test]
fn test_batch_inputs_pads_rows() {
    let ids = vec![vec![101u32, 7, 102], vec![101, 102], vec![]];
    let masks = vec![vec![1u32, 1, 1], vec![1, 1, 9], vec![]];
    let types = vec![vec![0u32, 1, 1], vec![0, 0], vec![]];
    let b = batch_inputs(&ids, &masks, &types, true);
    assert_eq!(b.width, 3);
    assert_eq!(b.ids, vec![vec![101, 7, 102], vec![101, 102, 0], vec![0, 0, 0]]);
    assert_eq!(b.mask, vec![vec![1, 1, 1], vec![1, 1, 0], vec![0, 0, 0]]);
    assert_eq!(b.types, vec![vec![0, 1, 1], vec![0, 0, 0], vec![0, 0, 0]]);
    let b = batch_inputs(&ids, &masks, &types, false);
    assert_eq!(b.types, vec![vec![0, 0, 0]; 3]);
    let empty: Vec<Vec<u32>> = vec![vec![]];
    assert_eq!(batch_inputs(&empty, &empty, &empty, false).width, 1);
}

#[test]
fn test_output_layout_and_blocks() {
    assert_eq!(output_layout(&[4, 384], "sentence_embedding").unwrap(), (1, 384));
    assert_eq!(output_layout(&[4, 12, 384], "last_hidden_state").unwrap(), (12, 384));
    match output_layout(&[4], "out") {
        Err(EmbedError::BadOutput(m)) => assert_eq!(m, "输出 `out` 的秩为 1，期望 2（已池化）或 3（逐 token）"),
        other => panic!("unexpected: {:?}", other.map(|_| ())),
    }
    assert_eq!(text_block(2, 3, 4, 36, "o").unwrap(), (24, 36));
    match text_block(2, 3, 4, 35, "o") {
        Err(EmbedError::BadOutput(m)) => assert_eq!(m, "输出 `o` 数据长度不足"),
        other => panic!("unexpected: {:?}", other.map(|_| ())),
    }
    assert_eq!(row_source(2, Pooling::Mean), RowSource::Whole);
    assert_eq!(row_source(3, Pooling::Cls), RowSource::FirstToken);
    assert_eq!(row_source(3, Pooling::Mean), RowSource::MaskedMean);
}

#[test]
fn test_runtime_minor_version() {
    assert_eq!(api_minor("1.20.1"), 20);
    assert_eq!(api_minor("1.9"), 9);
    assert_eq!(api_minor("1"), 0);
    assert_eq!(api_minor("1.x.2"), 0);
    assert_eq!(api_minor("1.+17.0"), 17);
    assert_eq!(api_minor("1..3"), 0);
    assert_eq!(api_minor("1.99999999999.0"), 0);
    let chars = |s: &str| s.chars().collect::<Vec<char>>();
    assert_eq!(parse_u32(&chars("4294967295")), Some(u32::MAX));
    assert_eq!(parse_u32(&chars("4294967296")), None);
    assert_eq!(parse_u32(&chars("+")), None);
    assert_eq!(parse_u32(&chars("-1")), None);
    assert_eq!(parse_u32(&chars("007")), Some(7));
}

#[test]
fn test_runtime_version_check() {
    assert!(check_runtime_version("/lib/libonnxruntime.so", "1.22.0", 20).is_ok());
    assert!(check_runtime_version("/lib/libonnxruntime.so", "1.20.0", 20).is_ok());
    assert_eq!(
        check_runtime_version("/lib/libonnxruntime.so", "1.16.3", 20).unwrap_err(),
        "动态库版本过低：/lib/libonnxruntime.so 报 1.16.3，本 crate 编译时选了 ONNX Runtime API 1.20（要求次版本 >= 20）"
    );
}

#[test]
fn test_error_messages_say_what_happened() {
    let off = ModelSource::NotConfigured.resolve("/tmp/root", &[]).err().unwrap();
    let msg = off.message();
    assert!(msg.contains("未配置") && msg.contains("关闭"));
    assert!(!msg.contains("不存在"));
    let missing = resolve_model_dir("/root", "no-such-model", &[false, false]).err().unwrap();
    let msg = missing.message();
    assert!(msg.starts_with("向量模型未就绪：找不到模型目录 /root/no-such-model\n已搜索：\n"));
    assert!(msg.contains("download-model"));
    assert_eq!(EmbedError::BadOutput("x".to_string()).message(), "模型输出形状异常：x");
    let size = DownloadError::SizeMismatch { name: "model.onnx".to_string(), expected: 10, got: 7 };
    assert_eq!(size.message(), "文件 model.onnx 体积不符：期望 10 字节，实得 7 字节（下载可能被截断）");
    let unknown = check_model_name("bge-m3").unwrap_err();
    assert!(unknown.message().starts_with("不支持下载模型 `bge-m3`"));
}

#[test]
fn test_part_file_name_appends_part() {
    assert_eq!(part_file_name("model.onnx"), "model.onnx.part");
    assert_eq!(part_file_name("tokenizer.json"), "tokenizer.json.part");
    assert_eq!(part_file_name("vocab"), "vocab.part");
}
