//! The pure part of each model provider: which backend models it
//! serves and what a call costs. The network calls themselves live
//! outside the engine; they use these tables.
//!
//! Costs are micro-USD, rounded down: a provider's per-thousand-token
//! price in micro-USD times the token count, divided by one thousand.

use vstd::prelude::*;
use crate::text::str_eq;

verus! {

/// The models the together backend serves.
pub open spec fn together_supports(name: Seq<char>) -> bool {
    ||| name == "meta-llama/Llama-2-70b-chat-hf"@
    ||| name == "meta-llama/Llama-2-13b-chat-hf"@
    ||| name == "meta-llama/Llama-2-7b-chat-hf"@
    ||| name == "meta-llama/Meta-Llama-3-70B-Instruct"@
    ||| name == "meta-llama/Meta-Llama-3-8B-Instruct"@
    ||| name == "mistralai/Mixtral-8x7B-Instruct-v0.1"@
    ||| name == "mistralai/Mistral-7B-Instruct-v0.1"@
    ||| name == "codellama/CodeLlama-34b-Instruct-hf"@
    ||| name == "togethercomputer/RedPajama-INCITE-Chat-3B-v1"@
    ||| name == "NousResearch/Nous-Hermes-2-Mixtral-8x7B-DPO"@
    ||| name == "teknium/OpenHermes-2.5-Mistral-7B"@
    ||| name == "Qwen/Qwen1.5-72B-Chat"@
    ||| name == "OpenAI/GPT-OSS-20B"@
}

/// Whether the together backend serves the named model.
pub fn together_supports_model(model_name: &str) -> (r: bool)
    ensures
        r == together_supports(model_name@),
{
    str_eq(model_name, "meta-llama/Llama-2-70b-chat-hf")
        || str_eq(model_name, "meta-llama/Llama-2-13b-chat-hf")
        || str_eq(model_name, "meta-llama/Llama-2-7b-chat-hf")
        || str_eq(model_name, "meta-llama/Meta-Llama-3-70B-Instruct")
        || str_eq(model_name, "meta-llama/Meta-Llama-3-8B-Instruct")
        || str_eq(model_name, "mistralai/Mixtral-8x7B-Instruct-v0.1")
        || str_eq(model_name, "mistralai/Mistral-7B-Instruct-v0.1")
        || str_eq(model_name, "codellama/CodeLlama-34b-Instruct-hf")
        || str_eq(model_name, "togethercomputer/RedPajama-INCITE-Chat-3B-v1")
        || str_eq(model_name, "NousResearch/Nous-Hermes-2-Mixtral-8x7B-DPO")
        || str_eq(model_name, "teknium/OpenHermes-2.5-Mistral-7B")
        || str_eq(model_name, "Qwen/Qwen1.5-72B-Chat")
        || str_eq(model_name, "OpenAI/GPT-OSS-20B")
}

/// The together backend's price per thousand tokens, in micro-USD.
pub open spec fn together_price_per_1k(name: Seq<char>) -> u64 {
    if name == "meta-llama/Llama-2-70b-chat-hf"@ { 900 }
    else if name == "meta-llama/Meta-Llama-3-70B-Instruct"@ { 900 }
    else if name == "meta-llama/Llama-2-13b-chat-hf"@ { 300 }
    else if name == "meta-llama/Meta-Llama-3-8B-Instruct"@ { 200 }
    else if name == "meta-llama/Llama-2-7b-chat-hf"@ { 200 }
    else if name == "mistralai/Mixtral-8x7B-Instruct-v0.1"@ { 600 }
    else if name == "mistralai/Mistral-7B-Instruct-v0.1"@ { 200 }
    else if name == "codellama/CodeLlama-34b-Instruct-hf"@ { 800 }
    else if name == "togethercomputer/RedPajama-INCITE-Chat-3B-v1"@ { 100 }
    else if name == "NousResearch/Nous-Hermes-2-Mixtral-8x7B-DPO"@ { 600 }
    else if name == "teknium/OpenHermes-2.5-Mistral-7B"@ { 200 }
    else if name == "Qwen/Qwen1.5-72B-Chat"@ { 900 }
    else if name == "OpenAI/GPT-OSS-20B"@ { 400 }
    else { 500 }
}

/// The cost of a call, in micro-USD rounded down: tokens times the
/// per-thousand price over one thousand.
pub open spec fn call_cost_micro(tokens: u32, price_per_1k: u64) -> int {
    tokens * price_per_1k / 1000
}

fn scaled_cost(tokens: u32, price_per_1k: u64) -> (r: u64)
    requires
        price_per_1k <= 1_000_000,
    ensures
        r == call_cost_micro(tokens, price_per_1k),
{
    proof {
        assert((tokens as int) * (price_per_1k as int) <= (u32::MAX as int) * 1_000_000)
            by (nonlinear_arith)
            requires tokens <= u32::MAX && price_per_1k <= 1_000_000;
    }
    (tokens as u64) * price_per_1k / 1000
}

/// What the together backend charges for a call, in micro-USD.
pub fn together_calculate_cost(tokens: u32, model_name: &str) -> (r: u64)
    ensures
        r == call_cost_micro(tokens, together_price_per_1k(model_name@)),
{
    let price: u64 = if str_eq(model_name, "meta-llama/Llama-2-70b-chat-hf") { 900 }
    else if str_eq(model_name, "meta-llama/Meta-Llama-3-70B-Instruct") { 900 }
    else if str_eq(model_name, "meta-llama/Llama-2-13b-chat-hf") { 300 }
    else if str_eq(model_name, "meta-llama/Meta-Llama-3-8B-Instruct") { 200 }
    else if str_eq(model_name, "meta-llama/Llama-2-7b-chat-hf") { 200 }
    else if str_eq(model_name, "mistralai/Mixtral-8x7B-Instruct-v0.1") { 600 }
    else if str_eq(model_name, "mistralai/Mistral-7B-Instruct-v0.1") { 200 }
    else if str_eq(model_name, "codellama/CodeLlama-34b-Instruct-hf") { 800 }
    else if str_eq(model_name, "togethercomputer/RedPajama-INCITE-Chat-3B-v1") { 100 }
    else if str_eq(model_name, "NousResearch/Nous-Hermes-2-Mixtral-8x7B-DPO") { 600 }
    else if str_eq(model_name, "teknium/OpenHermes-2.5-Mistral-7B") { 200 }
    else if str_eq(model_name, "Qwen/Qwen1.5-72B-Chat") { 900 }
    else if str_eq(model_name, "OpenAI/GPT-OSS-20B") { 400 }
    else { 500 };
    scaled_cost(tokens, price)
}

/// The models the groq backend serves.
pub open spec fn groq_supports(name: Seq<char>) -> bool {
    ||| name == "llama3-8b-8192"@
    ||| name == "llama3-70b-8192"@
    ||| name == "mixtral-8x7b-32768"@
    ||| name == "gemma-7b-it"@
}

/// Whether the groq backend serves the named model.
pub fn groq_supports_model(model_name: &str) -> (r: bool)
    ensures
        r == groq_supports(model_name@),
{
    str_eq(model_name, "llama3-8b-8192") || str_eq(model_name, "llama3-70b-8192")
        || str_eq(model_name, "mixtral-8x7b-32768") || str_eq(model_name, "gemma-7b-it")
}

/// What the groq backend charges: its tier is free, so always zero.
pub fn groq_calculate_cost(tokens: u32, model_name: &str) -> (r: u64)
    ensures
        r == 0,
{
    let _ = tokens;
    let _ = model_name;
    0
}

/// The models the cohere backend serves.
pub open spec fn cohere_supports(name: Seq<char>) -> bool {
    ||| name == "command-r"@
    ||| name == "command-r-plus"@
    ||| name == "command-light"@
    ||| name == "command-nightly"@
    ||| name == "command-r-08-2024"@
}

/// Whether the cohere backend serves the named model.
pub fn cohere_supports_model(model_name: &str) -> (r: bool)
    ensures
        r == cohere_supports(model_name@),
{
    str_eq(model_name, "command-r") || str_eq(model_name, "command-r-plus")
        || str_eq(model_name, "command-light") || str_eq(model_name, "command-nightly")
        || str_eq(model_name, "command-r-08-2024")
}

/// The cohere backend's price per thousand tokens, in micro-USD.
pub open spec fn cohere_price_per_1k(name: Seq<char>) -> u64 {
    if name == "command-r-plus"@ { 3000 }
    else if name == "command-light"@ { 300 }
    else { 500 }
}

/// What the cohere backend charges for a call, in micro-USD.
pub fn cohere_calculate_cost(tokens: u32, model_name: &str) -> (r: u64)
    ensures
        r == call_cost_micro(tokens, cohere_price_per_1k(model_name@)),
{
    let price: u64 = if str_eq(model_name, "command-r-plus") { 3000 }
    else if str_eq(model_name, "command-light") { 300 }
    else { 500 };
    scaled_cost(tokens, price)
}

/// Whether a model name marks the openrouter free tier.
pub open spec fn is_free_tier(name: Seq<char>) -> bool {
    name.len() >= 5 && name.skip(name.len() - 5) == ":free"@
}

/// Whether the named model ends in the free-tier marker.
pub fn ends_with_free(model_name: &str) -> (r: bool)
    ensures
        r == is_free_tier(model_name@),
{
    let n = model_name.unicode_len();
    if n < 5 {
        return false;
    }
    let suffix = model_name.substring_char(n - 5, n);
    proof {
        assert(model_name@.skip(n - 5) =~= model_name@.subrange(n - 5, n as int));
    }
    str_eq(suffix, ":free")
}

/// The models the openrouter backend serves.
pub open spec fn openrouter_supports(name: Seq<char>) -> bool {
    ||| name == "mistralai/mistral-small-3.2-24b-instruct:free"@
    ||| name == "meta-llama/llama-3.1-8b-instruct:free"@
    ||| name == "microsoft/phi-3-mini-128k-instruct:free"@
    ||| name == "google/gemma-2-9b-it:free"@
}

/// Whether the openrouter backend serves the named model.
pub fn openrouter_supports_model(model_name: &str) -> (r: bool)
    ensures
        r == openrouter_supports(model_name@),
{
    str_eq(model_name, "mistralai/mistral-small-3.2-24b-instruct:free")
        || str_eq(model_name, "meta-llama/llama-3.1-8b-instruct:free")
        || str_eq(model_name, "microsoft/phi-3-mini-128k-instruct:free")
        || str_eq(model_name, "google/gemma-2-9b-it:free")
}

/// The openrouter backend's cost, in micro-USD: the free-tier marker
/// takes precedence over any price table, so every model whose name
/// ends in the marker costs nothing; everything else uses the default
/// paid rate.
pub open spec fn openrouter_cost_micro(tokens: u32, name: Seq<char>) -> int {
    if is_free_tier(name) {
        0
    } else {
        call_cost_micro(tokens, 1000)
    }
}

/// What the openrouter backend charges for a call, in micro-USD.
pub fn openrouter_calculate_cost(tokens: u32, model_name: &str) -> (r: u64)
    ensures
        r == openrouter_cost_micro(tokens, model_name@),
{
    if ends_with_free(model_name) {
        0
    } else {
        scaled_cost(tokens, 1000)
    }
}

} // verus!
