# IF Lang

An intent-first, constrained functional language: pipelines (`x |> f(a)`),
pure functions, explicit externs, and the rule that a function's body first
uses its parameters in the order of its signature.

The library is written in Verus. Each stage is an executable function whose
contract states its result exactly over a mathematical model:

- `lexer`: bytes to tokens (`lex_source`), with the shape of every token
  list (`law_token_list_shape`) and the tokens of words and numerals
  (`law_word_lexes_to_one_token`, `law_numeral_lexes_to_one_token`).
- `parser` (with the grammar in `parser_spec`): tokens to a surface program;
  an error always points at one of the tokens.
- `validate`: the parameter-order and wildcard rules (`program_check`), with
  the laws `law_param_order`, `law_validated_param_order`,
  `law_wildcard_last` and `law_validation_rules` (a program passes exactly
  when both rules hold).
- `lower`: pipes become calls (`lower_sprogram`, `lemma_pipe_becomes_call`);
  everything else is kept node for node (`law_pipe_free_lowers_to_itself`).
- `eval`: the interpreter (`run_program`), with host functions seen as
  answers to numbered calls, each with its name and arguments; a run with a
  host makes a log of calls that the host answers, and that log fixes its
  result (`host_gave`, `run_fixed_by`); a host
  function is consulted only when declared `extern`
  (`law_host_called_only_for_declared_externs`); constructors check their
  fields (`law_constructor_fields`).
- `purity`: a program that declares no extern never consults its host
  (`law_no_extern_no_host`).
- `value`: runtime values; maps and variant fields stay in key order
  (`law_dict_insert`, `law_field_insert`).
- `format`: the canonical layout of a program, with or without the line
  comments of its source (`formatted`, `source_formatted`); a source without
  comments formats as its program
  (`law_source_without_comments_formats_as_program`), every line comment is
  kept but those after the last item of a program without a final
  expression (`law_format_source_keeps_comments`), and an escaped string
  lexes back to itself (`law_escaped_string_lexes_back`).
- `show`: the text the command line prints for a value.

`app/` holds the command line (`check`, `run`, and `extra` with host
functions from a dynamic library). `tests/` holds the tests.
