use ast_script::lexer::tokenize;
use ast_script::parser::parse_tokens;
use ast_script::printer::reconstruct_script;
use ast_script::scenario::prune;

#[test]
fn test_parse_ast() {
    let input = r#"astver = 2.0
        ast = {
            block_00000 = {
                {"savetitle", text="俺たちの新しい日常"},
                {"bg", time=2000, file="bg001a", path=":bg/"},
                {"se", file="seアラーム", loop=1, id=1},
                {"fg", ch="妃愛", size="no", mode=1, path=":fg/hiy[表情]/", file="hiy_nob0700", ex05="hiy_nob0000", face="b0032", head="hiy_nob", lv=2.2, id=20},
                {"text"},
                text = {
                    vo = {
                        {"vo", file="fem_hiy_00052", ch="hiy"},
                    },
                    ja = {
                        {
                            name = {"妃愛"},
                            "「お兄、あさー……むふー……」",
                            {"rt2"},
                        },
                    },
                },
                linknext = "block_00001",
                line = 18,
            },
        }
        "#;

    let tokens = tokenize(input).unwrap();
    let _value = parse_tokens(&tokens).unwrap();
}

#[test]
fn test_prune_ast() {
    let input = r#"astver = 2.0
        ast = {
            block_00000 = {
                {"savetitle", text="俺たちの新しい日常"},
                {"bg", time=2000, file="bg001a", path=":bg/"},
                {"se", file="seアラーム", loop=1, id=1},
                {"fg", ch="妃愛", size="no", mode=1, path=":fg/hiy[表情]/", file="hiy_nob0700", ex05="hiy_nob0000", face="b0032", head="hiy_nob", lv=2.2, id=20},
                {"text"},
                text = {
                    vo = {
                        {"vo", file="fem_hiy_00052", ch="hiy"},
                    },
                    ja = {
                        {
                            name = {"妃愛"},
                            "「お兄、あさー……むふー……」",
                            {"rt2"},
                        },
                    },
                },
                linknext = "block_00001",
                line = 18,
            },
        }
        "#;

    let tokens = tokenize(input).unwrap();
    let mut value = parse_tokens(&tokens).unwrap();
    prune(&mut value);
    let s = reconstruct_script(&value);
    println!("{}", s);
}

#[test]
fn test_reconstruct() {
    let input = r#"astver = 2.0
        ast = {
            block_00000 = {
                {"savetitle", text="俺たちの新しい日常"},
                {"bg", time=2000, file="bg001a", path=":bg/"},
                {"se", file="seアラーム", loop=1, id=1},
                {"fg", ch="妃愛", size="no", mode=1, path=":fg/hiy[表情]/", file="hiy_nob0700", ex05="hiy_nob0000", face="b0032", head="hiy_nob", lv=2.2, id=20},
                {"text"},
                text = {
                    vo = {
                        {"vo", file="fem_hiy_00052", ch="hiy"},
                    },
                    ja = {
                        {
                            name = {"妃愛"},
                            "「お兄、あさー……むふー……」",
                            {"rt2"},
                        },
                    },
                },
                linknext = "block_00001",
                line = 18,
            },
        }
        "#;

    let tokens = tokenize(input).unwrap();
    let value = parse_tokens(&tokens).unwrap();
    let s = reconstruct_script(&value);
    println!("{}", s);
}

#[test]
fn test_merge() {
    let input = r#"astver = 2.0
        ast = {
            block_00000 = {
                {"savetitle", text="俺たちの新しい日常"},
                {"bg", time=2000, file="bg001a", path=":bg/"},
                {"se", file="seアラーム", loop=1, id=1},
                {"fg", ch="妃愛", size="no", mode=1, path=":fg/hiy[表情]/", file="hiy_nob0700", ex05="hiy_nob0000", face="b0032", head="hiy_nob", lv=2.2, id=20},
                {"text"},
                text = {
                    vo = {
                        {"vo", file="fem_hiy_00052", ch="hiy"},
                    },
                    ja = {
                        {
                            name = {"妃愛"},
                            "「お兄、あさー……むふー……」",
                            {"rt2"},
                        },
                    },
                },
                linknext = "block_00001",
                line = 18,
            },
        }
        "#;

    let tokens = tokenize(input).unwrap();
    let _value = parse_tokens(&tokens).unwrap();
}
